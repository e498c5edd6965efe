use led_runtime::basic::{
    adjust_scroll, apply_move, default_bindings, dispatch, dispatch_key, Move,
};
use led_runtime::buffers::BufferEdits;
use led_runtime::columns::{Cursor, Scroll};
use led_runtime::command::{Command, DispatchOutcome};
use led_runtime::dispatch::Event;
use led_runtime::edits::EditedBuffer;
use led_runtime::keymap::Bindings;
use led_runtime::keys::{parse_key, KeyCode, KeyEvent, KeyModifiers};
use led_runtime::paths::CanonPath;
use led_runtime::screen::{Dims, Terminal};
use led_runtime::store::BufferStore;
use led_runtime::tabs::{Tab, TabId, Tabs};
use ropey::Rope;

fn cur(line: usize, col: usize, preferred_col: usize) -> Cursor {
    Cursor { line, col, preferred_col }
}

fn top(top: usize) -> Scroll {
    Scroll { top, top_sub_line: 0 }
}

fn tabs_with(paths: &[(&str, u64)], active: Option<u64>) -> Tabs {
    let mut t = Tabs::new();
    for (p, id) in paths {
        t.push(Tab::fresh(TabId(*id), &CanonPath::new(p), false, None));
    }
    t.active = active.map(TabId);
    t
}

fn set_cursor(tabs: &mut Tabs, i: usize, c: Cursor) {
    let mut t = tabs.at(i).copy();
    t.cursor = c;
    tabs.set(i, t);
}

fn terminal(cols: u16, rows: u16) -> Terminal {
    Terminal { dims: Some(Dims { cols, rows }), side_cols: 0 }
}

fn none(code: KeyCode) -> KeyEvent {
    KeyEvent::new(KeyModifiers::none(), code)
}

fn ctrl(c: char) -> KeyEvent {
    KeyEvent::new(KeyModifiers::control(), KeyCode::Char(c))
}

fn noop_dispatch(k: KeyEvent, tabs: &mut Tabs) -> DispatchOutcome {
    let mut edits = BufferEdits::new();
    let term = Terminal { dims: None, side_cols: 0 };
    dispatch_key(k, tabs, &mut edits, &BufferStore::new(), &term, &default_bindings())
}

struct Fixture {
    tabs: Tabs,
    edits: BufferEdits,
    store: BufferStore,
    term: Terminal,
}

impl Fixture {
    fn new(body: &str, cols: u16, rows: u16) -> Fixture {
        let mut edits = BufferEdits::new();
        edits.put("file.rs".to_string(), EditedBuffer::fresh(Rope::from_str(body)));
        let mut store = BufferStore::new();
        store.set_ready("file.rs".to_string(), Rope::from_str(body));
        let tabs = tabs_with(&[("file.rs", 1)], Some(1));
        Fixture { tabs, edits, store, term: terminal(cols, rows) }
    }

    fn at(mut self, line: usize, col: usize) -> Fixture {
        set_cursor(&mut self.tabs, 0, cur(line, col, col));
        self
    }

    fn press(&mut self, k: KeyEvent) -> DispatchOutcome {
        let keymap = default_bindings();
        dispatch_key(k, &mut self.tabs, &mut self.edits, &self.store, &self.term, &keymap)
    }

    fn cursor(&self) -> Cursor {
        self.tabs.at(0).cursor
    }

    fn text(&self, path: &str) -> String {
        self.edits.get(path).expect("seeded").rope.to_string()
    }

    fn version(&self, path: &str) -> u64 {
        self.edits.get(path).expect("seeded").version
    }

    fn dirty(&self, path: &str) -> bool {
        self.edits.get(path).expect("seeded").dirty()
    }
}

#[test]
fn tab_cycles_active_forward() {
    let mut tabs = tabs_with(&[("a", 1), ("b", 2), ("c", 3)], Some(1));
    noop_dispatch(none(KeyCode::Tab), &mut tabs);
    assert_eq!(tabs.active, Some(TabId(2)));
    noop_dispatch(none(KeyCode::Tab), &mut tabs);
    assert_eq!(tabs.active, Some(TabId(3)));
    noop_dispatch(none(KeyCode::Tab), &mut tabs);
    assert_eq!(tabs.active, Some(TabId(1)));
}

#[test]
fn dispatch_shift_tab_cycles_backward() {
    let mut tabs = tabs_with(&[("a", 1), ("b", 2), ("c", 3)], Some(1));
    noop_dispatch(KeyEvent::new(KeyModifiers::shift(), KeyCode::Tab), &mut tabs);
    assert_eq!(tabs.active, Some(TabId(3)));
    noop_dispatch(none(KeyCode::BackTab), &mut tabs);
    assert_eq!(tabs.active, Some(TabId(2)));
}

#[test]
fn ctrl_c_signals_quit() {
    let mut tabs = tabs_with(&[("a", 1)], Some(1));
    assert_eq!(noop_dispatch(ctrl('c'), &mut tabs), DispatchOutcome::Quit);
}

#[test]
fn tab_on_empty_does_nothing() {
    let mut tabs = Tabs::new();
    noop_dispatch(none(KeyCode::Tab), &mut tabs);
    assert_eq!(tabs.active, None);
}

#[test]
fn dispatch_down_moves_cursor_and_does_not_scroll_within_viewport() {
    let mut f = Fixture::new("a\nb\nc\nd\ne\nf", 10, 5);
    for _ in 0..3 {
        f.press(none(KeyCode::Down));
    }
    assert_eq!(f.cursor(), cur(3, 0, 0));
    assert_eq!(f.tabs.at(0).scroll, top(0));
}

#[test]
fn dispatch_down_scrolls_when_cursor_would_leave_viewport() {
    let mut f = Fixture::new("a\nb\nc\nd\ne\nf", 10, 4);
    for _ in 0..3 {
        f.press(none(KeyCode::Down));
    }
    assert_eq!(f.cursor(), cur(3, 0, 0));
    assert_eq!(f.tabs.at(0).scroll, top(1));
}

#[test]
fn dispatch_up_scrolls_back_toward_the_top() {
    let mut f = Fixture::new("a\nb\nc\nd\ne\nf", 10, 4).at(5, 0);
    let mut t = f.tabs.at(0).copy();
    t.scroll = top(3);
    f.tabs.set(0, t);
    for _ in 0..3 {
        f.press(none(KeyCode::Up));
    }
    assert_eq!(f.cursor(), cur(2, 0, 0));
    assert_eq!(f.tabs.at(0).scroll, top(2));
}

#[test]
fn right_clamps_to_line_end_then_stops() {
    let mut f = Fixture::new("hi\nworld", 10, 5);
    for expected in [1usize, 2, 2] {
        f.press(none(KeyCode::Right));
        assert_eq!(f.cursor().col, expected);
    }
}

#[test]
fn left_stops_at_line_start() {
    let mut f = Fixture::new("hi\nworld", 10, 5).at(0, 1);
    f.press(none(KeyCode::Left));
    assert_eq!(f.cursor().col, 0);
    f.press(none(KeyCode::Left));
    assert_eq!(f.cursor().col, 0);
}

#[test]
fn dispatch_home_end_jump_within_current_line() {
    let mut f = Fixture::new("abcdef\nghij", 20, 5).at(0, 3);
    f.press(none(KeyCode::End));
    assert_eq!(f.cursor(), cur(0, 6, 6));
    f.press(none(KeyCode::Home));
    assert_eq!(f.cursor(), cur(0, 0, 0));
}

#[test]
fn dispatch_page_down_advances_by_one_viewport() {
    let body = (0..50).map(|i| format!("line {i}")).collect::<Vec<_>>().join("\n");
    let mut f = Fixture::new(&body, 40, 11);
    f.press(none(KeyCode::PageDown));
    assert_eq!(f.cursor().line, 10);
    assert_eq!(f.tabs.at(0).scroll.top, 1);
}

#[test]
fn dispatch_movement_is_noop_when_buffer_not_loaded() {
    let mut tabs = tabs_with(&[("file.rs", 1)], Some(1));
    let mut edits = BufferEdits::new();
    dispatch_key(
        none(KeyCode::Down),
        &mut tabs,
        &mut edits,
        &BufferStore::new(),
        &terminal(10, 5),
        &default_bindings(),
    );
    assert_eq!(tabs.at(0).cursor, Cursor::origin());
    assert_eq!(tabs.at(0).scroll, Scroll::origin());
}

#[test]
fn dispatch_apply_move_clamps_col_when_moving_to_shorter_line() {
    let rope = Rope::from_str("abcdef\nghi");
    assert_eq!(apply_move(cur(0, 5, 5), &rope, Move::Down, 10), cur(1, 3, 5));
}

#[test]
fn dispatch_vertical_traversal_restores_preferred_col_on_longer_line() {
    let rope = Rope::from_str("abcdefghij\nxy\n0123456789");
    let c = apply_move(cur(0, 7, 7), &rope, Move::Down, 10);
    assert_eq!(c, cur(1, 2, 7));
    let c = apply_move(c, &rope, Move::Down, 10);
    assert_eq!(c, cur(2, 7, 7));
    let c = apply_move(c, &rope, Move::Up, 10);
    assert_eq!(c, cur(1, 2, 7));
    let c = apply_move(c, &rope, Move::Up, 10);
    assert_eq!(c, cur(0, 7, 7));
}

#[test]
fn dispatch_horizontal_move_resets_preferred_col() {
    let rope = Rope::from_str("abcdefghij\n0123456789");
    let c = apply_move(cur(0, 8, 8), &rope, Move::Left, 10);
    assert_eq!(c, cur(0, 7, 7));
    let c = apply_move(c, &rope, Move::Down, 10);
    assert_eq!(c, cur(1, 7, 7));
}

#[test]
fn dispatch_page_down_also_preserves_preferred_col() {
    let body = (0..30)
        .map(|i| if i == 5 { "xy".to_string() } else { format!("line {i:03}") })
        .collect::<Vec<String>>()
        .join("\n");
    let rope = Rope::from_str(&body);
    assert_eq!(apply_move(cur(0, 6, 6), &rope, Move::PageDown, 10), cur(10, 6, 6));
}

#[test]
fn dispatch_adjust_scroll_pulls_cursor_back_into_view() {
    assert_eq!(adjust_scroll(top(0), cur(8, 0, 0), 4), top(5));
}

#[test]
fn dispatch_adjust_scroll_noop_when_cursor_inside_window() {
    assert_eq!(adjust_scroll(top(10), cur(12, 0, 0), 4), top(10));
}

#[test]
fn dispatch_insert_char_advances_cursor_and_bumps_version() {
    let mut f = Fixture::new("abc\n", 10, 5).at(0, 1);
    f.press(none(KeyCode::Char('X')));
    assert_eq!(f.text("file.rs"), "aXbc\n");
    assert_eq!(f.cursor().col, 2);
    assert_eq!(f.cursor().preferred_col, 2);
    assert_eq!(f.version("file.rs"), 1);
    assert!(f.dirty("file.rs"));
}

#[test]
fn dispatch_insert_newline_splits_line_and_drops_cursor() {
    let mut f = Fixture::new("abcdef\n", 10, 5).at(0, 3);
    f.press(none(KeyCode::Enter));
    assert_eq!(f.text("file.rs"), "abc\ndef\n");
    assert_eq!(f.cursor(), cur(1, 0, 0));
    assert!(f.dirty("file.rs"));
}

#[test]
fn dispatch_backspace_deletes_char_before_cursor() {
    let mut f = Fixture::new("hello", 10, 5).at(0, 5);
    f.press(none(KeyCode::Backspace));
    assert_eq!(f.text("file.rs"), "hell");
    assert_eq!(f.cursor().col, 4);
}

#[test]
fn dispatch_backspace_at_column_zero_joins_with_previous_line() {
    let mut f = Fixture::new("foo\nbar\n", 10, 5).at(1, 0);
    f.press(none(KeyCode::Backspace));
    assert_eq!(f.text("file.rs"), "foobar\n");
    assert_eq!(f.cursor(), cur(0, 3, 3));
}

#[test]
fn dispatch_backspace_at_origin_is_a_noop() {
    let mut f = Fixture::new("abc\n", 10, 5);
    let v0 = f.version("file.rs");
    f.press(none(KeyCode::Backspace));
    assert_eq!(f.text("file.rs"), "abc\n");
    assert_eq!(f.version("file.rs"), v0);
    assert!(!f.dirty("file.rs"));
}

#[test]
fn dispatch_delete_forward_removes_char_at_cursor() {
    let mut f = Fixture::new("hello", 10, 5).at(0, 1);
    f.press(none(KeyCode::Delete));
    assert_eq!(f.text("file.rs"), "hllo");
    assert_eq!(f.cursor().col, 1);
}

#[test]
fn dispatch_delete_forward_at_end_of_line_joins_with_next() {
    let mut f = Fixture::new("foo\nbar", 10, 5).at(0, 3);
    f.press(none(KeyCode::Delete));
    assert_eq!(f.text("file.rs"), "foobar");
    assert_eq!(f.cursor().col, 3);
}

#[test]
fn dispatch_delete_forward_at_eof_is_a_noop() {
    let mut f = Fixture::new("abc", 10, 5).at(0, 3);
    let v0 = f.version("file.rs");
    f.press(none(KeyCode::Delete));
    assert_eq!(f.text("file.rs"), "abc");
    assert_eq!(f.version("file.rs"), v0);
}

#[test]
fn dispatch_edit_on_unloaded_buffer_is_swallowed() {
    let mut f = Fixture::new("", 10, 5);
    f.edits = BufferEdits::new();
    f.store = BufferStore::new();
    for code in [KeyCode::Char('x'), KeyCode::Enter, KeyCode::Backspace, KeyCode::Delete] {
        f.press(none(code));
    }
    assert!(f.edits.buffers.is_empty());
    assert_eq!(f.cursor(), Cursor::origin());
}

#[test]
fn ctrl_c_still_quits_not_inserts() {
    let mut f = Fixture::new("", 10, 5);
    assert_eq!(f.press(ctrl('c')), DispatchOutcome::Quit);
    assert_eq!(f.text("file.rs"), "");
    assert!(!f.dirty("file.rs"));
}

#[test]
fn dispatch_edits_survive_tab_switch() {
    let mut f = Fixture::new("", 10, 5);
    f.tabs = tabs_with(&[("a", 1), ("b", 2)], Some(1));
    f.edits = BufferEdits::new();
    f.edits.put("a".to_string(), EditedBuffer::fresh(Rope::from_str("a")));
    f.edits.put("b".to_string(), EditedBuffer::fresh(Rope::from_str("b")));
    set_cursor(&mut f.tabs, 0, cur(0, 1, 1));
    f.press(none(KeyCode::Char('!')));
    f.press(none(KeyCode::Tab));
    set_cursor(&mut f.tabs, 1, cur(0, 1, 1));
    f.press(none(KeyCode::Char('?')));
    assert_eq!(f.text("a"), "a!");
    assert_eq!(f.text("b"), "b?");
    assert!(f.dirty("a"));
    assert!(f.dirty("b"));
}

fn dirtied(text: &str) -> EditedBuffer {
    let mut eb = EditedBuffer::fresh(Rope::from_str(text));
    eb.version = 1;
    eb
}

#[test]
fn ctrl_s_queues_save_for_dirty_active_buffer() {
    let mut f = Fixture::new("hi", 10, 5);
    f.edits.put("file.rs".to_string(), dirtied("hi"));
    assert!(f.dirty("file.rs"));
    f.press(ctrl('s'));
    assert!(f.edits.pending_saves.contains("file.rs"));
}

#[test]
fn ctrl_s_on_clean_buffer_is_noop() {
    let mut f = Fixture::new("hi", 10, 5);
    f.press(ctrl('s'));
    assert!(f.edits.pending_saves.members().is_empty());
}

#[test]
fn ctrl_s_on_unloaded_buffer_is_noop() {
    let mut f = Fixture::new("", 10, 5);
    f.edits = BufferEdits::new();
    f.store = BufferStore::new();
    f.press(ctrl('s'));
    assert!(f.edits.pending_saves.members().is_empty());
}

fn with_keymap(f: &mut Fixture, k: KeyEvent, km: &Bindings) -> DispatchOutcome {
    dispatch_key(k, &mut f.tabs, &mut f.edits, &f.store, &f.term, km)
}

#[test]
fn dispatch_custom_keymap_routes_to_the_bound_command() {
    let mut f = Fixture::new("", 10, 5);
    f.tabs = tabs_with(&[("a", 1)], Some(1));
    f.edits = BufferEdits::new();
    let mut km = Bindings::new();
    km.insert(parse_key("ctrl+q").unwrap(), Command::Quit);
    assert_eq!(with_keymap(&mut f, ctrl('q'), &km), DispatchOutcome::Quit);
    assert_eq!(with_keymap(&mut f, ctrl('c'), &km), DispatchOutcome::Continue);
}

#[test]
fn dispatch_unbound_printable_char_falls_through_to_insert() {
    let mut f = Fixture::new("", 10, 5);
    with_keymap(&mut f, none(KeyCode::Char('z')), &Bindings::new());
    assert_eq!(f.text("file.rs"), "z");
}

#[test]
fn dispatch_ctrl_char_without_binding_is_swallowed_not_inserted() {
    let mut f = Fixture::new("", 10, 5);
    with_keymap(&mut f, ctrl('x'), &Bindings::new());
    assert_eq!(f.text("file.rs"), "");
}

#[test]
fn ctrl_s_targets_only_active_tab() {
    let mut f = Fixture::new("", 10, 5);
    f.tabs = tabs_with(&[("a", 1), ("b", 2)], Some(2));
    f.edits = BufferEdits::new();
    f.edits.put("a".to_string(), dirtied("A"));
    f.edits.put("b".to_string(), dirtied("B"));
    f.press(ctrl('s'));
    assert!(f.edits.pending_saves.contains("b"));
    assert!(!f.edits.pending_saves.contains("a"));
}

#[test]
fn resizing_changes_nothing_and_quitting_quits() {
    let mut f = Fixture::new("abc", 10, 5).at(0, 2);
    let keymap = default_bindings();
    let resized = dispatch(
        Event::Resize(Dims { cols: 3, rows: 3 }),
        &mut f.tabs,
        &mut f.edits,
        &f.store,
        &f.term,
        &keymap,
    );
    assert_eq!(resized, DispatchOutcome::Continue);
    assert_eq!(f.cursor(), cur(0, 2, 2));
    let ended = dispatch(Event::Quit, &mut f.tabs, &mut f.edits, &f.store, &f.term, &keymap);
    assert_eq!(ended, DispatchOutcome::Quit);
}

#[test]
fn moving_down_and_up_again_leads_back() {
    let rope = Rope::from_str("abcdef\nx\nabcdef");
    let c = cur(0, 4, 4);
    let down = apply_move(c, &rope, Move::Down, 5);
    assert_eq!(apply_move(down, &rope, Move::Up, 5), c);
}
