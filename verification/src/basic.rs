//! The plainest editor over tabs and buffers: one key is one command,
//! columns are characters, lines do not wrap, and edits are not recorded.

use vstd::prelude::*;

use crate::buffers;
use crate::buffers::{put_active, take_active, BufferEdits, EditsView};
use crate::columns::{Cursor, Scroll};
use crate::command::{Command, DispatchOutcome};
use crate::dispatch::Event;
use crate::edits;
use crate::edits::{bump, BufferView};
use crate::keymap;
use crate::keymap::{implicit_insert, Bindings};
use crate::keys::{KeyCode, KeyEvent, KeyModifiers};
use crate::moves;
use crate::screen;
use crate::screen::Terminal;
use crate::store::BufferStore;
use crate::tab_ops;
use crate::tab_ops::ring;
use crate::tabs::{Tab, TabView, Tabs, TabsView};
use crate::text;
use crate::text::{
    line_char_len, rope_clone, rope_insert_char, rope_len, rope_len_lines, rope_line_to_char,
    rope_remove,
};

verus! {

// ---------------------------------------------------------------------
// Moving
// ---------------------------------------------------------------------

/// A move of the cursor.
#[derive(Clone, Copy, Debug, PartialEq, Eq, Structural)]
pub enum Move {
    Up,
    Down,
    Left,
    Right,
    LineStart,
    LineEnd,
    PageUp,
    PageDown,
}

/// The lesser of two numbers.
pub open spec fn lesser(a: int, b: int) -> usize {
    if a <= b {
        a as usize
    } else {
        b as usize
    }
}

/// The cursor on another line, as near as can be to the column it aims
/// for.
pub open spec fn on_line(t: Seq<char>, c: Cursor, line: int) -> Cursor {
    Cursor {
        line: line as usize,
        col: lesser(c.preferred_col as int, text::line_len(t, line)),
        preferred_col: c.preferred_col,
    }
}

/// The cursor at another column, which it aims for from now on.
pub open spec fn at_col(c: Cursor, col: int) -> Cursor {
    Cursor { line: c.line, col: col as usize, preferred_col: col as usize }
}

/// The lines that a page has: at least one.
pub open spec fn page(rows: int) -> int {
    if rows > 1 {
        rows
    } else {
        1
    }
}

/// The cursor after a move.
pub open spec fn moved(t: Seq<char>, c: Cursor, m: Move, rows: int) -> Cursor {
    let last = text::line_count(t) - 1;
    match m {
        Move::Up => on_line(t, c, screen::minus(c.line as int, 1)),
        Move::Down => on_line(t, c, lesser(c.line + 1, last) as int),
        Move::PageUp => on_line(t, c, screen::minus(c.line as int, page(rows))),
        Move::PageDown => on_line(t, c, lesser(c.line + page(rows), last) as int),
        Move::Left => at_col(c, screen::minus(c.col as int, 1)),
        Move::Right => at_col(c, lesser(c.col + 1, text::line_len(t, c.line as int)) as int),
        Move::LineStart => at_col(c, 0),
        Move::LineEnd => at_col(c, text::line_len(t, c.line as int)),
    }
}

fn vertical(c: Cursor, rope: &ropey::Rope, line: usize) -> (r: Cursor)
    ensures
        r == on_line(text::rope_text(*rope), c, line as int),
{
    let len: usize = line_char_len(rope, line);
    let col: usize = if c.preferred_col <= len {
        c.preferred_col
    } else {
        len
    };
    Cursor { line, col, preferred_col: c.preferred_col }
}

fn horizontal(c: Cursor, col: usize) -> (r: Cursor)
    ensures
        r == at_col(c, col as int),
{
    Cursor { line: c.line, col, preferred_col: col }
}

fn lines_down(line: usize, n: usize, last: usize) -> (r: usize)
    ensures
        r == lesser(line + n, last as int),
{
    if line <= last && n <= last - line {
        line + n
    } else {
        last
    }
}

/// Moves a cursor over a text.
pub fn apply_move(c: Cursor, rope: &ropey::Rope, m: Move, body_rows: usize) -> (r: Cursor)
    ensures
        r == moved(text::rope_text(*rope), c, m, body_rows as int),
{
    proof {
        text::text_has_a_line(text::rope_text(*rope));
    }
    let last: usize = rope_len_lines(rope) - 1;
    let page: usize = if body_rows > 1 {
        body_rows
    } else {
        1
    };
    match m {
        Move::Up => vertical(c, rope, c.line.saturating_sub(1)),
        Move::Down => vertical(c, rope, lines_down(c.line, 1, last)),
        Move::PageUp => vertical(c, rope, c.line.saturating_sub(page)),
        Move::PageDown => vertical(c, rope, lines_down(c.line, page, last)),
        Move::Left => horizontal(c, c.col.saturating_sub(1)),
        Move::Right => {
            let len: usize = line_char_len(rope, c.line);
            horizontal(c, if c.col < len {
                c.col + 1
            } else {
                len
            })
        },
        Move::LineStart => horizontal(c, 0),
        Move::LineEnd => horizontal(c, line_char_len(rope, c.line)),
    }
}

/// The view, moved by as little as brings the cursor into it.
pub open spec fn scrolled(s: Scroll, c: Cursor, rows: int) -> Scroll {
    if rows <= 0 {
        s
    } else if c.line < s.top {
        Scroll { top: c.line, top_sub_line: 0 }
    } else if c.line >= s.top + rows {
        Scroll { top: (c.line + 1 - rows) as usize, top_sub_line: 0 }
    } else {
        s
    }
}

/// Brings the cursor into view.
pub fn adjust_scroll(s: Scroll, c: Cursor, body_rows: usize) -> (r: Scroll)
    ensures
        r == scrolled(s, c, body_rows as int),
{
    if body_rows == 0 {
        return s;
    }
    if c.line < s.top {
        Scroll { top: c.line, top_sub_line: 0 }
    } else if c.line - s.top >= body_rows {
        Scroll { top: c.line - (body_rows - 1), top_sub_line: 0 }
    } else {
        s
    }
}

/// After a move the cursor is in view.
pub proof fn scrolling_shows_the_cursor(s: Scroll, c: Cursor, rows: int)
    requires
        0 < rows <= usize::MAX,
    ensures
        scrolled(s, c, rows).top <= c.line < scrolled(s, c, rows).top + rows,
{
}

/// Moving down and up again leads back, however short the line between.
pub proof fn down_and_up_lead_back(t: Seq<char>, c: Cursor, rows: int)
    requires
        c.line + 1 < text::line_count(t) <= usize::MAX,
        c.col == lesser(c.preferred_col as int, text::line_len(t, c.line as int)),
    ensures
        moved(t, moved(t, c, Move::Down, rows), Move::Up, rows) == c,
{
}

/// All rows but that of the status bar.
pub open spec fn rows_of(term: Terminal) -> int {
    match term.dims {
        Some(d) => screen::minus(d.rows as int, 1),
        None => 0,
    }
}

pub open spec fn tab_moved(tab: TabView, t: Seq<char>, term: Terminal, m: Move) -> TabView {
    let c = moved(t, tab.cursor, m, rows_of(term));
    TabView { cursor: c, scroll: scrolled(tab.scroll, c, rows_of(term)), ..tab }
}

/// The tabs with the cursor of the active one moved, if its text is there.
pub open spec fn cursor_moved(
    tabs: TabsView,
    e: EditsView,
    store: Map<Seq<char>, Seq<char>>,
    term: Terminal,
    m: Move,
) -> TabsView {
    match tabs.active_index() {
        None => tabs,
        Some(i) => match moves::shown_text(e, store, tabs.open[i].path) {
            None => tabs,
            Some(t) => tabs.with_tab(i, tab_moved(tabs.open[i], t, term, m)),
        },
    }
}

fn move_in(tab: &mut Tab, rope: &ropey::Rope, terminal: &Terminal, m: Move)
    ensures
        final(tab)@ == tab_moved(old(tab)@, text::rope_text(*rope), *terminal, m),
{
    let rows: usize = match terminal.dims {
        Some(d) => (d.rows as usize).saturating_sub(1),
        None => 0,
    };
    tab.cursor = apply_move(tab.cursor, rope, m, rows);
    tab.scroll = adjust_scroll(tab.scroll, tab.cursor, rows);
}

fn move_cursor(
    tabs: &mut Tabs,
    edits: &BufferEdits,
    store: &BufferStore,
    terminal: &Terminal,
    m: Move,
)
    ensures
        final(tabs)@ == cursor_moved(old(tabs)@, edits@, store.texts(), *terminal, m),
{
    let i: usize = match tabs.active_index() {
        Some(i) => i,
        None => {
            return;
        },
    };
    let mut tab = tabs.at(i).copy();
    let path = tab.path.text.clone();
    match edits.get(path.as_str()) {
        Some(eb) => move_in(&mut tab, &eb.rope, terminal, m),
        None => match store.ready(path.as_str()) {
            Some(rope) => move_in(&mut tab, rope, terminal, m),
            None => {
                return;
            },
        },
    }
    tabs.set(i, tab);
}

// ---------------------------------------------------------------------
// Editing
// ---------------------------------------------------------------------

/// The place of the cursor in the text.
pub open spec fn place(t: Seq<char>, c: Cursor) -> int {
    text::line_start(t, c.line as int) + c.col
}

/// The cursor is at a place of the text.
pub open spec fn stands(t: Seq<char>, c: Cursor) -> bool {
    c.line <= text::line_count(t) && place(t, c) <= t.len()
}

pub open spec fn at_origin(c: Cursor) -> bool {
    c.line == 0 && c.col == 0
}

/// Nothing follows the cursor.
pub open spec fn at_end(t: Seq<char>, c: Cursor) -> bool {
    c.line + 1 >= text::line_count(t) && c.col >= text::line_len(t, c.line as int)
}

/// The cursor is where a command can do its work.
pub open spec fn workable(cmd: Command, t: Seq<char>, c: Cursor) -> bool {
    match cmd {
        Command::InsertChar(_) => stands(t, c),
        Command::InsertNewline => stands(t, c) && c.line < usize::MAX,
        Command::DeleteBack => at_origin(c) || (stands(t, c) && place(t, c) > 0),
        Command::DeleteForward => at_end(t, c) || (stands(t, c) && place(t, c) < t.len()),
        _ => true,
    }
}

/// The active cursor is where a command can do its work, if the active
/// buffer is loaded.
pub open spec fn ready_for(cmd: Command, tabs: TabsView, e: EditsView) -> bool {
    match buffers::active_loaded(tabs, e) {
        Some(i) => workable(cmd, e.buffers[tabs.open[i].path].text, tabs.open[i].cursor),
        None => true,
    }
}

/// A tab and its buffer after an edit.
pub open spec fn edited(cmd: Command, tab: TabView, b: BufferView) -> (TabView, BufferView) {
    let t = b.text;
    let c = tab.cursor;
    let i = place(t, c);
    match cmd {
        Command::InsertChar(ch) => (
            TabView { cursor: at_col(c, c.col + 1), ..tab },
            edits::retexted(b, text::inserted(t, i, seq![ch])),
        ),
        Command::InsertNewline => (
            TabView {
                cursor: Cursor { line: (c.line + 1) as usize, col: 0, preferred_col: 0 },
                ..tab
            },
            edits::retexted(b, text::inserted(t, i, seq!['\n'])),
        ),
        Command::DeleteBack => if at_origin(c) {
            (tab, b)
        } else {
            (
                TabView {
                    cursor: if c.col > 0 {
                        at_col(c, c.col - 1)
                    } else {
                        at_col(
                            Cursor { line: (c.line - 1) as usize, ..c },
                            text::line_len(t, c.line - 1),
                        )
                    },
                    ..tab
                },
                edits::retexted(b, text::removed(t, i - 1, i)),
            )
        },
        Command::DeleteForward => if at_end(t, c) {
            (tab, b)
        } else {
            (tab, edits::retexted(b, text::removed(t, i, i + 1)))
        },
        _ => (tab, b),
    }
}

pub open spec fn editing(cmd: Command) -> buffers::Change {
    |tab: TabView, b: BufferView, clock: u64|
        (edited(cmd, tab, b).0, edited(cmd, tab, b).1, clock)
}

fn cursor_place(c: &Cursor, rope: &ropey::Rope) -> (i: usize)
    requires
        stands(text::rope_text(*rope), *c),
    ensures
        i == place(text::rope_text(*rope), *c),
{
    let ghost t = text::rope_text(*rope);
    proof {
        text::lemma_line_start(t, c.line as int);
    }
    let n: usize = rope_len(rope);
    let start: usize = rope_line_to_char(rope, c.line);
    assert(start + c.col <= n);
    start + c.col
}

fn edit_in(cmd: Command, tab: &mut Tab, eb: &mut crate::edits::EditedBuffer)
    requires
        workable(cmd, old(eb)@.text, old(tab)@.cursor),
    ensures
        (final(tab)@, final(eb)@) == edited(cmd, old(tab)@, old(eb)@),
{
    let c = tab.cursor;
    match cmd {
        Command::InsertChar(ch) => {
            let i: usize = cursor_place(&c, &eb.rope);
            let mut rope = rope_clone(&eb.rope);
            rope_insert_char(&mut rope, i, ch);
            let n: usize = rope_len(&rope);
            proof {
                text::lemma_line_start(eb@.text, c.line as int);
                assert(n == eb@.text.len() + 1);
            }
            bump(eb, rope);
            tab.cursor = horizontal(c, c.col + 1);
        },
        Command::InsertNewline => {
            let i: usize = cursor_place(&c, &eb.rope);
            let mut rope = rope_clone(&eb.rope);
            rope_insert_char(&mut rope, i, '\n');
            bump(eb, rope);
            tab.cursor = Cursor { line: c.line + 1, col: 0, preferred_col: 0 };
        },
        Command::DeleteBack => {
            if c.line == 0 && c.col == 0 {
                return;
            }
            let i: usize = cursor_place(&c, &eb.rope);
            let after = if c.col > 0 {
                horizontal(c, c.col - 1)
            } else {
                let above = Cursor { line: c.line - 1, ..c };
                horizontal(above, line_char_len(&eb.rope, c.line - 1))
            };
            let mut rope = rope_clone(&eb.rope);
            rope_remove(&mut rope, i - 1, i);
            bump(eb, rope);
            tab.cursor = after;
        },
        Command::DeleteForward => {
            let count: usize = rope_len_lines(&eb.rope);
            let on_last: bool = c.line >= count || c.line + 1 >= count;
            if on_last && c.col >= line_char_len(&eb.rope, c.line) {
                return;
            }
            let i: usize = cursor_place(&c, &eb.rope);
            let n: usize = rope_len(&eb.rope);
            assert(i < n);
            let mut rope = rope_clone(&eb.rope);
            rope_remove(&mut rope, i, i + 1);
            bump(eb, rope);
        },
        _ => {},
    }
}

fn edit_active(cmd: Command, tabs: &mut Tabs, edits: &mut BufferEdits)
    requires
        ready_for(cmd, old(tabs)@, old(edits)@),
    ensures
        (final(tabs)@, final(edits)@) == buffers::with_active(
            old(tabs)@,
            old(edits)@,
            editing(cmd),
        ),
{
    let ghost e0 = edits@;
    let taken = take_active(tabs, edits);
    if let Some((i, tab, eb)) = taken {
        let mut tab = tab;
        let mut eb = eb;
        let path = tab.path.text.clone();
        edit_in(cmd, &mut tab, &mut eb);
        let clock: u64 = edits.clock;
        let ghost b = eb@;
        put_active(tabs, edits, i, path, tab, eb, clock);
        proof {
            buffers::lemma_take_put(e0, path@, b, clock);
        }
    }
}

// ---------------------------------------------------------------------
// Commands and keys
// ---------------------------------------------------------------------

/// The save of the active buffer is asked for, if there is anything to
/// save.
pub open spec fn save_requested(tabs: TabsView, e: EditsView) -> EditsView {
    match buffers::active_loaded(tabs, e) {
        Some(i) => {
            let path = tabs.open[i].path;
            if edits::is_dirty(e.buffers[path]) {
                EditsView { pending_saves: e.pending_saves.insert(path), ..e }
            } else {
                e
            }
        },
        None => e,
    }
}

fn request_save_active(tabs: &Tabs, edits: &mut BufferEdits)
    ensures
        final(edits)@ == save_requested(tabs@, old(edits)@),
{
    let i: usize = match tabs.active_index() {
        Some(i) => i,
        None => {
            return;
        },
    };
    let path = tabs.at(i).path.text.clone();
    let dirty: bool = match edits.get(path.as_str()) {
        Some(eb) => eb.dirty(),
        None => false,
    };
    if dirty {
        edits.queue_save(path);
    }
}

fn cycle_active(tabs: &mut Tabs, delta: isize)
    ensures
        final(tabs)@ == tab_ops::cycled(old(tabs)@, delta as int),
{
    let n: usize = tabs.len();
    if n == 0 {
        return;
    }
    let cur: usize = match tabs.active_index() {
        Some(i) => i,
        None => 0,
    };
    let next: usize = ring(n, cur, delta);
    let id = tabs.at(next).id;
    tabs.active = Some(id);
}

/// The move that a command stands for.
pub open spec fn move_of(cmd: Command) -> Option<Move> {
    match cmd {
        Command::CursorUp => Some(Move::Up),
        Command::CursorDown => Some(Move::Down),
        Command::CursorLeft => Some(Move::Left),
        Command::CursorRight => Some(Move::Right),
        Command::CursorLineStart => Some(Move::LineStart),
        Command::CursorLineEnd => Some(Move::LineEnd),
        Command::CursorPageUp => Some(Move::PageUp),
        Command::CursorPageDown => Some(Move::PageDown),
        _ => None,
    }
}

/// What a command makes of the tabs and buffers. Commands that this editor
/// does not have do nothing.
pub open spec fn command_run(
    cmd: Command,
    tabs: TabsView,
    e: EditsView,
    store: Map<Seq<char>, Seq<char>>,
    term: Terminal,
) -> (DispatchOutcome, TabsView, EditsView) {
    match move_of(cmd) {
        Some(m) => (DispatchOutcome::Continue, cursor_moved(tabs, e, store, term, m), e),
        None => match cmd {
            Command::Quit => (DispatchOutcome::Quit, tabs, e),
            Command::Save => (DispatchOutcome::Continue, tabs, save_requested(tabs, e)),
            Command::TabNext => (DispatchOutcome::Continue, tab_ops::cycled(tabs, 1), e),
            Command::TabPrev => (DispatchOutcome::Continue, tab_ops::cycled(tabs, -1), e),
            Command::InsertNewline | Command::DeleteBack | Command::DeleteForward
            | Command::InsertChar(_) => {
                let (t2, e2) = buffers::with_active(tabs, e, editing(cmd));
                (DispatchOutcome::Continue, t2, e2)
            },
            _ => (DispatchOutcome::Continue, tabs, e),
        },
    }
}

/// Runs a command.
pub fn run_command(
    cmd: Command,
    tabs: &mut Tabs,
    edits: &mut BufferEdits,
    store: &BufferStore,
    terminal: &Terminal,
) -> (outcome: DispatchOutcome)
    requires
        ready_for(cmd, old(tabs)@, old(edits)@),
    ensures
        (outcome, final(tabs)@, final(edits)@) == command_run(
            cmd,
            old(tabs)@,
            old(edits)@,
            store.texts(),
            *terminal,
        ),
{
    match cmd {
        Command::Quit => {
            return DispatchOutcome::Quit;
        },
        Command::Save => request_save_active(tabs, edits),
        Command::TabNext => cycle_active(tabs, 1),
        Command::TabPrev => cycle_active(tabs, -1),
        Command::CursorUp => move_cursor(tabs, edits, store, terminal, Move::Up),
        Command::CursorDown => move_cursor(tabs, edits, store, terminal, Move::Down),
        Command::CursorLeft => move_cursor(tabs, edits, store, terminal, Move::Left),
        Command::CursorRight => move_cursor(tabs, edits, store, terminal, Move::Right),
        Command::CursorLineStart => move_cursor(tabs, edits, store, terminal, Move::LineStart),
        Command::CursorLineEnd => move_cursor(tabs, edits, store, terminal, Move::LineEnd),
        Command::CursorPageUp => move_cursor(tabs, edits, store, terminal, Move::PageUp),
        Command::CursorPageDown => move_cursor(tabs, edits, store, terminal, Move::PageDown),
        Command::InsertNewline | Command::DeleteBack | Command::DeleteForward
        | Command::InsertChar(_) => edit_active(cmd, tabs, edits),
        _ => {},
    }
    DispatchOutcome::Continue
}

/// The command of a key: its binding, else a printable character types
/// itself.
pub open spec fn key_command(k: KeyEvent, m: Map<KeyEvent, Command>) -> Option<Command> {
    if m.dom().contains(k) {
        Some(m[k])
    } else {
        keymap::self_insert(k)
    }
}

pub open spec fn key_pressed(
    k: KeyEvent,
    m: Map<KeyEvent, Command>,
    tabs: TabsView,
    e: EditsView,
    store: Map<Seq<char>, Seq<char>>,
    term: Terminal,
) -> (DispatchOutcome, TabsView, EditsView) {
    match key_command(k, m) {
        Some(cmd) => command_run(cmd, tabs, e, store, term),
        None => (DispatchOutcome::Continue, tabs, e),
    }
}

/// Handles a key.
pub fn dispatch_key(
    k: KeyEvent,
    tabs: &mut Tabs,
    edits: &mut BufferEdits,
    store: &BufferStore,
    terminal: &Terminal,
    keymap: &Bindings,
) -> (outcome: DispatchOutcome)
    requires
        key_command(k, keymap@) matches Some(cmd) ==> ready_for(cmd, old(tabs)@, old(edits)@),
    ensures
        (outcome, final(tabs)@, final(edits)@) == key_pressed(
            k,
            keymap@,
            old(tabs)@,
            old(edits)@,
            store.texts(),
            *terminal,
        ),
{
    let cmd = match keymap.get(k) {
        Some(cmd) => cmd,
        None => match implicit_insert(&k) {
            Some(cmd) => cmd,
            None => {
                return DispatchOutcome::Continue;
            },
        },
    };
    run_command(cmd, tabs, edits, store, terminal)
}

/// Handles an event.
pub fn dispatch(
    ev: Event,
    tabs: &mut Tabs,
    edits: &mut BufferEdits,
    store: &BufferStore,
    terminal: &Terminal,
    keymap: &Bindings,
) -> (outcome: DispatchOutcome)
    requires
        ev matches Event::Key(k) ==> (key_command(k, keymap@) matches Some(cmd) ==> ready_for(
            cmd,
            old(tabs)@,
            old(edits)@,
        )),
    ensures
        (outcome, final(tabs)@, final(edits)@) == (match ev {
            Event::Key(k) => key_pressed(
                k,
                keymap@,
                old(tabs)@,
                old(edits)@,
                store.texts(),
                *terminal,
            ),
            Event::Resize(_) => (DispatchOutcome::Continue, old(tabs)@, old(edits)@),
            Event::Quit => (DispatchOutcome::Quit, old(tabs)@, old(edits)@),
        }),
{
    match ev {
        Event::Key(k) => dispatch_key(k, tabs, edits, store, terminal, keymap),
        Event::Resize(_) => DispatchOutcome::Continue,
        Event::Quit => DispatchOutcome::Quit,
    }
}

/// The bindings of this editor.
pub open spec fn default_map() -> Map<KeyEvent, Command> {
    Map::empty().insert(keymap::ctrl_key(KeyCode::Char('c')), Command::Quit).insert(
        keymap::ctrl_key(KeyCode::Char('s')),
        Command::Save,
    ).insert(keymap::plain_key(KeyCode::Tab), Command::TabNext).insert(
        keymap::shift_key(KeyCode::Tab),
        Command::TabPrev,
    ).insert(keymap::plain_key(KeyCode::BackTab), Command::TabPrev).insert(
        keymap::plain_key(KeyCode::Up),
        Command::CursorUp,
    ).insert(keymap::plain_key(KeyCode::Down), Command::CursorDown).insert(
        keymap::plain_key(KeyCode::Left),
        Command::CursorLeft,
    ).insert(keymap::plain_key(KeyCode::Right), Command::CursorRight).insert(
        keymap::plain_key(KeyCode::Home),
        Command::CursorLineStart,
    ).insert(keymap::plain_key(KeyCode::End), Command::CursorLineEnd).insert(
        keymap::plain_key(KeyCode::PageUp),
        Command::CursorPageUp,
    ).insert(keymap::plain_key(KeyCode::PageDown), Command::CursorPageDown).insert(
        keymap::plain_key(KeyCode::Enter),
        Command::InsertNewline,
    ).insert(keymap::plain_key(KeyCode::Backspace), Command::DeleteBack).insert(
        keymap::plain_key(KeyCode::Delete),
        Command::DeleteForward,
    )
}

/// The bindings of this editor.
pub fn default_bindings() -> (b: Bindings)
    ensures
        b@ == default_map(),
{
    let none = KeyModifiers::none();
    let control = KeyModifiers::control();
    let mut b = Bindings::new();
    b.insert(KeyEvent::new(control, KeyCode::Char('c')), Command::Quit);
    b.insert(KeyEvent::new(control, KeyCode::Char('s')), Command::Save);
    b.insert(KeyEvent::new(none, KeyCode::Tab), Command::TabNext);
    b.insert(KeyEvent::new(KeyModifiers::shift(), KeyCode::Tab), Command::TabPrev);
    b.insert(KeyEvent::new(none, KeyCode::BackTab), Command::TabPrev);
    b.insert(KeyEvent::new(none, KeyCode::Up), Command::CursorUp);
    b.insert(KeyEvent::new(none, KeyCode::Down), Command::CursorDown);
    b.insert(KeyEvent::new(none, KeyCode::Left), Command::CursorLeft);
    b.insert(KeyEvent::new(none, KeyCode::Right), Command::CursorRight);
    b.insert(KeyEvent::new(none, KeyCode::Home), Command::CursorLineStart);
    b.insert(KeyEvent::new(none, KeyCode::End), Command::CursorLineEnd);
    b.insert(KeyEvent::new(none, KeyCode::PageUp), Command::CursorPageUp);
    b.insert(KeyEvent::new(none, KeyCode::PageDown), Command::CursorPageDown);
    b.insert(KeyEvent::new(none, KeyCode::Enter), Command::InsertNewline);
    b.insert(KeyEvent::new(none, KeyCode::Backspace), Command::DeleteBack);
    b.insert(KeyEvent::new(none, KeyCode::Delete), Command::DeleteForward);
    b
}

/// Only the commands that edit change a buffer, and they change none but
/// that of the active tab: other edits survive a switch of tabs.
pub proof fn edits_stay_with_their_tab(
    cmd: Command,
    tabs: TabsView,
    e: EditsView,
    store: Map<Seq<char>, Seq<char>>,
    term: Terminal,
    path: Seq<char>,
)
    requires
        e.has(path),
        tabs.active_index() matches Some(i) ==> tabs.open[i].path != path,
    ensures
        ({
            let e2 = command_run(cmd, tabs, e, store, term).2;
            e2.has(path) && e2.buffers[path] == e.buffers[path]
        }),
{
}

/// The cursor keys: up and down by a line and the page keys by a page, as
/// far as there are lines, to the column aimed for or the end of a shorter
/// line; left and right by a character within the line.
pub proof fn cursor_keys_move_the_cursor(t: Seq<char>, c: Cursor, rows: int)
    requires
        c.line < text::line_count(t) <= usize::MAX,
        c.line + rows <= usize::MAX,
        t.len() <= usize::MAX,
        c.col < usize::MAX,
    ensures
        ({
            let u = moved(t, c, Move::Up, rows);
            let d = moved(t, c, Move::Down, rows);
            let pu = moved(t, c, Move::PageUp, rows);
            let pd = moved(t, c, Move::PageDown, rows);
            let l = moved(t, c, Move::Left, rows);
            let r = moved(t, c, Move::Right, rows);
            let s = moved(t, c, Move::LineStart, rows);
            let e = moved(t, c, Move::LineEnd, rows);
            let last = text::line_count(t) - 1;
            let n = text::line_len(t, c.line as int);
            &&& c.line > 0 ==> u.line == c.line - 1
            &&& c.line == 0 ==> u.line == 0
            &&& c.line < last ==> d.line == c.line + 1
            &&& c.line == last ==> d.line == last
            &&& rows > 0 && c.line >= rows ==> pu.line == c.line - rows
            &&& rows > 0 && c.line < rows ==> pu.line == 0
            &&& rows > 0 && c.line + rows <= last ==> pd.line == c.line + rows
            &&& rows > 0 && c.line + rows > last ==> pd.line == last
            &&& u.preferred_col == c.preferred_col && d.preferred_col == c.preferred_col
            &&& c.preferred_col <= text::line_len(t, d.line as int) ==> d.col == c.preferred_col
            &&& c.preferred_col > text::line_len(t, d.line as int) ==> d.col == text::line_len(
                t,
                d.line as int,
            )
            &&& c.preferred_col <= text::line_len(t, u.line as int) ==> u.col == c.preferred_col
            &&& l.line == c.line && r.line == c.line && s.line == c.line && e.line == c.line
            &&& c.col > 0 ==> l.col == c.col - 1
            &&& c.col == 0 ==> l.col == 0
            &&& c.col < n ==> r.col == c.col + 1
            &&& c.col >= n ==> r.col == n
            &&& s.col == 0
            &&& e.col == n
            &&& l.preferred_col == l.col && r.preferred_col == r.col
        }),
{
    let last = text::line_count(t) - 1;
    text::lemma_line_len(t, c.line as int);
    text::lemma_line_len(t, moved(t, c, Move::Down, rows).line as int);
}

/// The keys that edit: a character or a line feed goes in at the cursor, and
/// the delete keys take the character before or behind it; at the start and
/// the end of the text there is none to take.
pub proof fn edits_are_made_at_the_cursor(
    tabs: TabsView,
    e: EditsView,
    store: Map<Seq<char>, Seq<char>>,
    term: Terminal,
    i: int,
    ch: char,
    x: int,
)
    requires
        buffers::active_loaded(tabs, e) == Some(i),
        ({
            let c = tabs.open[i].cursor;
            let t = e.buffers[tabs.open[i].path].text;
            &&& x == text::line_start(t, c.line as int) + c.col
            &&& 0 <= x <= t.len()
            &&& c.line < usize::MAX
            &&& c.col < usize::MAX
        }),
    ensures
        ({
            let path = tabs.open[i].path;
            let c = tabs.open[i].cursor;
            let t = e.buffers[path].text;
            let n = t.len() as int;
            let a = command_run(Command::InsertChar(ch), tabs, e, store, term);
            let b = command_run(Command::InsertNewline, tabs, e, store, term);
            let d = command_run(Command::DeleteBack, tabs, e, store, term);
            let f = command_run(Command::DeleteForward, tabs, e, store, term);
            &&& a.2.buffers[path].text == t.subrange(0, x) + seq![ch] + t.subrange(x, n)
            &&& a.1.open[i].cursor.line == c.line
            &&& a.1.open[i].cursor.col == c.col + 1
            &&& b.2.buffers[path].text == t.subrange(0, x) + seq!['\n'] + t.subrange(x, n)
            &&& b.1.open[i].cursor.line == c.line + 1
            &&& b.1.open[i].cursor.col == 0
            &&& c.line == 0 && c.col == 0 ==> d.2.buffers[path].text == t
            &&& (c.line > 0 || c.col > 0) && x > 0 ==> d.2.buffers[path].text == t.subrange(
                0,
                x - 1,
            ) + t.subrange(x, n)
            &&& c.col > 0 ==> d.1.open[i].cursor.line == c.line && d.1.open[i].cursor.col == c.col
                - 1
            &&& c.col == 0 && c.line > 0 ==> d.1.open[i].cursor.line == c.line - 1
            &&& at_end(t, c) ==> f.2.buffers[path].text == t
            &&& !at_end(t, c) && x < n ==> f.2.buffers[path].text == t.subrange(0, x) + t.subrange(
                x + 1,
                n,
            )
            &&& f.1.open[i].cursor == c
            &&& crate::tabs::others_kept(tabs, a.1, i)
            &&& crate::tabs::others_kept(tabs, d.1, i)
        }),
{
    buffers::a_change_is_made_in_the_active_tab(tabs, e, editing(Command::InsertChar(ch)));
    buffers::a_change_is_made_in_the_active_tab(tabs, e, editing(Command::InsertNewline));
    buffers::a_change_is_made_in_the_active_tab(tabs, e, editing(Command::DeleteBack));
    buffers::a_change_is_made_in_the_active_tab(tabs, e, editing(Command::DeleteForward));
}

/// A save is asked for exactly if the active buffer has changes, and no
/// command but that asks for one.
pub proof fn a_save_is_asked_for_what_changed(
    tabs: TabsView,
    e: EditsView,
    store: Map<Seq<char>, Seq<char>>,
    term: Terminal,
    i: int,
)
    requires
        buffers::active_loaded(tabs, e) == Some(i),
    ensures
        ({
            let path = tabs.open[i].path;
            let (o, t2, e2) = command_run(Command::Save, tabs, e, store, term);
            let dirty = e.buffers[path].version > e.buffers[path].saved_version;
            &&& dirty ==> e2.pending_saves == e.pending_saves.insert(path)
            &&& !dirty ==> e2 == e
            &&& e2.buffers == e.buffers
            &&& t2 == tabs
            &&& o is Continue
            &&& command_run(Command::Quit, tabs, e, store, term) == (DispatchOutcome::Quit, tabs, e)
            &&& command_run(Command::TabNext, tabs, e, store, term).1 == tab_ops::cycled(tabs, 1)
            &&& command_run(Command::TabPrev, tabs, e, store, term).1 == tab_ops::cycled(tabs, -1)
        }),
{
}

} // verus!
