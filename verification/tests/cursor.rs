use led_runtime::columns::Scroll;
use led_runtime::command::Command;
use led_runtime::cursor::{adjust_scroll, apply_move, Move};
use led_runtime::keys::parse_key;
use led_runtime::columns::Cursor;
use led_runtime::editor::Dispatcher;
use led_runtime::edits::EditedBuffer;
use led_runtime::keymap::default_keymap;
use led_runtime::keys::{KeyCode, KeyEvent, KeyModifiers};
use led_runtime::paths::CanonPath;
use led_runtime::screen::{Dims, Terminal};
use led_runtime::tabs::{Tab, TabId};
use ropey::Rope;

fn none(code: KeyCode) -> KeyEvent {
    KeyEvent::new(KeyModifiers::none(), code)
}

fn terminal(cols: u16, rows: u16) -> Terminal {
    Terminal { dims: Some(Dims { cols, rows }), side_cols: 0 }
}

/// An editor whose only tab shows `file.rs`.
fn editor(body: &str, cols: u16, rows: u16) -> Dispatcher {
    let mut d = Dispatcher::new(default_keymap(), terminal(cols, rows), 0);
    d.tabs.push(Tab::fresh(TabId(1), &CanonPath::new("file.rs"), false, None));
    d.tabs.active = Some(TabId(1));
    d.edits.put("file.rs".to_string(), EditedBuffer::fresh(Rope::from_str(body)));
    d.store.set_ready("file.rs".to_string(), Rope::from_str(body));
    d
}

/// An editor with tabs whose files are not loaded.
fn tabs_only(paths: &[(&str, u64)], active: Option<u64>) -> Dispatcher {
    let mut d = Dispatcher::new(default_keymap(), terminal(10, 5), 0);
    for (p, id) in paths {
        d.tabs.push(Tab::fresh(TabId(*id), &CanonPath::new(p), false, None));
    }
    d.tabs.active = active.map(TabId);
    d
}

fn with_tab(d: &mut Dispatcher, i: usize, f: impl FnOnce(&mut Tab)) {
    let mut t = d.tabs.at(i).copy();
    f(&mut t);
    d.tabs.set(i, t);
}

fn cur(line: usize, col: usize) -> Cursor {
    Cursor { line, col, preferred_col: col }
}

fn put_cursor(d: &mut Dispatcher, line: usize, col: usize) {
    with_tab(d, 0, |t| t.cursor = cur(line, col));
}

fn cursor(d: &Dispatcher) -> Cursor {
    d.tabs.at(0).cursor
}

fn text(d: &Dispatcher, path: &str) -> String {
    d.edits.get(path).expect("loaded").rope.to_string()
}

fn c3(line: usize, col: usize, preferred_col: usize) -> Cursor {
    Cursor { line, col, preferred_col }
}

fn top(top: usize) -> Scroll {
    Scroll { top, top_sub_line: 0 }
}

fn ctrl_code(code: KeyCode) -> KeyEvent {
    KeyEvent::new(KeyModifiers::control(), code)
}

#[test]
fn cursor_down_moves_cursor_and_does_not_scroll_within_viewport() {
    let mut d = editor("a\nb\nc\nd\ne\nf", 10, 6);
    for _ in 0..3 {
        d.dispatch_key(none(KeyCode::Down));
    }
    assert_eq!(cursor(&d), cur(3, 0));
    assert_eq!(d.tabs.at(0).scroll, top(0));
}

#[test]
fn cursor_down_scrolls_when_cursor_would_leave_viewport() {
    let mut d = editor("a\nb\nc\nd\ne\nf", 10, 5);
    for _ in 0..3 {
        d.dispatch_key(none(KeyCode::Down));
    }
    assert_eq!(cursor(&d), cur(3, 0));
    assert_eq!(d.tabs.at(0).scroll, top(1));
}

#[test]
fn cursor_up_scrolls_back_toward_the_top() {
    let mut d = editor("a\nb\nc\nd\ne\nf", 10, 4);
    put_cursor(&mut d, 5, 0);
    with_tab(&mut d, 0, |t| t.scroll = top(3));
    for _ in 0..3 {
        d.dispatch_key(none(KeyCode::Up));
    }
    assert_eq!(cursor(&d), cur(2, 0));
    assert_eq!(d.tabs.at(0).scroll, top(2));
}

#[test]
fn right_wraps_from_line_end_to_next_row_start() {
    let mut d = editor("hi\nworld", 10, 5);
    for (line, col) in [(0, 1), (0, 2), (1, 0)] {
        d.dispatch_key(none(KeyCode::Right));
        assert_eq!(cursor(&d).line, line);
        assert_eq!(cursor(&d).col, col);
    }
}

#[test]
fn right_at_eof_does_not_advance() {
    let mut d = editor("hi", 10, 5);
    put_cursor(&mut d, 0, 2);
    d.dispatch_key(none(KeyCode::Right));
    assert_eq!(cursor(&d).line, 0);
    assert_eq!(cursor(&d).col, 2);
}

#[test]
fn left_wraps_from_line_start_to_previous_row_end() {
    let mut d = editor("hi\nworld", 10, 5);
    put_cursor(&mut d, 1, 0);
    d.dispatch_key(none(KeyCode::Left));
    assert_eq!(cursor(&d).line, 0);
    assert_eq!(cursor(&d).col, 2);
}

#[test]
fn left_at_file_start_does_not_move() {
    let mut d = editor("hi\nworld", 10, 5);
    put_cursor(&mut d, 0, 1);
    d.dispatch_key(none(KeyCode::Left));
    assert_eq!(cursor(&d).col, 0);
    d.dispatch_key(none(KeyCode::Left));
    assert_eq!(cursor(&d).line, 0);
    assert_eq!(cursor(&d).col, 0);
}

#[test]
fn cursor_home_end_jump_within_current_line() {
    let mut d = editor("abcdef\nghij", 20, 5);
    put_cursor(&mut d, 0, 3);
    d.dispatch_key(none(KeyCode::End));
    assert_eq!(cursor(&d), cur(0, 6));
    d.dispatch_key(none(KeyCode::Home));
    assert_eq!(cursor(&d), cur(0, 0));
}

#[test]
fn cursor_page_down_advances_by_one_viewport() {
    let body = (0..50).map(|i| format!("line {i}")).collect::<Vec<_>>().join("\n");
    let mut d = editor(&body, 40, 12);
    d.dispatch_key(none(KeyCode::PageDown));
    assert_eq!(cursor(&d).line, 10);
    assert_eq!(d.tabs.at(0).scroll.top, 1);
}

#[test]
fn cursor_movement_is_noop_when_buffer_not_loaded() {
    let mut d = tabs_only(&[("file.rs", 1)], Some(1));
    d.dispatch_key(none(KeyCode::Down));
    assert_eq!(cursor(&d), Cursor::origin());
    assert_eq!(d.tabs.at(0).scroll, Scroll::origin());
}

#[test]
fn cursor_apply_move_clamps_col_when_moving_to_shorter_line() {
    let rope = Rope::from_str("abcdef\nghi");
    assert_eq!(apply_move(c3(0, 5, 5), &rope, Move::Down, 10, 80), c3(1, 3, 5));
}

#[test]
fn cursor_vertical_traversal_restores_preferred_col_on_longer_line() {
    let rope = Rope::from_str("abcdefghij\nxy\n0123456789");
    let c = apply_move(c3(0, 7, 7), &rope, Move::Down, 10, 80);
    assert_eq!(c, c3(1, 2, 7));
    let c = apply_move(c, &rope, Move::Down, 10, 80);
    assert_eq!(c, c3(2, 7, 7));
    let c = apply_move(c, &rope, Move::Up, 10, 80);
    assert_eq!(c, c3(1, 2, 7));
    let c = apply_move(c, &rope, Move::Up, 10, 80);
    assert_eq!(c, c3(0, 7, 7));
}

#[test]
fn cursor_horizontal_move_resets_preferred_col() {
    let rope = Rope::from_str("abcdefghij\n0123456789");
    let c = apply_move(c3(0, 8, 8), &rope, Move::Left, 10, 80);
    assert_eq!(c, c3(0, 7, 7));
    let c = apply_move(c, &rope, Move::Down, 10, 80);
    assert_eq!(c, c3(1, 7, 7));
}

#[test]
fn cursor_page_down_also_preserves_preferred_col() {
    let body = (0..30)
        .map(|i| if i == 5 { "xy".to_string() } else { format!("line {i:03}") })
        .collect::<Vec<String>>()
        .join("\n");
    let rope = Rope::from_str(&body);
    assert_eq!(apply_move(c3(0, 6, 6), &rope, Move::PageDown, 10, 80), c3(10, 6, 6));
}

#[test]
fn cursor_adjust_scroll_pulls_cursor_back_into_view() {
    let rope = Rope::from_str("\n\n\n\n\n\n\n\n\n");
    assert_eq!(adjust_scroll(top(0), c3(8, 0, 0), 4, &rope, 80), top(5));
}

#[test]
fn cursor_adjust_scroll_noop_when_cursor_inside_window() {
    let rope = Rope::from_str("\n\n\n\n\n\n\n\n\n\n\n\n\n");
    assert_eq!(adjust_scroll(top(10), c3(12, 0, 0), 4, &rope, 80), top(10));
}

#[test]
fn file_start_and_file_end_jump_to_extremes() {
    let mut d = editor("abc\ndef\nghij", 40, 5);
    put_cursor(&mut d, 1, 2);
    d.dispatch_key(ctrl_code(KeyCode::End));
    assert_eq!(cursor(&d), cur(2, 4));
    d.dispatch_key(ctrl_code(KeyCode::Home));
    assert_eq!(cursor(&d), cur(0, 0));
}

#[test]
fn word_right_and_word_left_move_by_word() {
    let mut d = editor("foo bar  baz", 40, 5);
    let f = parse_key("alt+f").unwrap();
    let b = parse_key("alt+b").unwrap();
    d.keymap.insert_direct(f, Command::CursorWordRight);
    d.keymap.insert_direct(b, Command::CursorWordLeft);
    for (k, col) in [(f, 3), (f, 7), (b, 4), (b, 0)] {
        d.dispatch_key(k);
        assert_eq!(cursor(&d).col, col);
    }
}

#[test]
fn end_of_line_then_type_does_not_panic() {
    let mut d = editor("hello\nworld", 40, 10);
    d.dispatch_key(ctrl_code(KeyCode::Char('e')));
    d.dispatch_key(none(KeyCode::Char('x')));
    assert_eq!(text(&d, "file.rs"), "hellox\nworld");
    assert_eq!(cursor(&d).line, 0);
    assert_eq!(cursor(&d).col, 6);
}

#[test]
fn down_moves_within_wrapped_logical_line() {
    let rope = Rope::from_str("0123456789abcdef\nnext");
    assert_eq!(apply_move(c3(0, 3, 3), &rope, Move::Down, 10, 10), c3(0, 12, 3));
}

#[test]
fn up_onto_non_last_sub_caps_preferred_col_below_wrap_boundary() {
    let rope = Rope::from_str("0123456789abcdefghi\nnext");
    assert_eq!(apply_move(c3(0, 19, 10), &rope, Move::Up, 10, 10), c3(0, 17, 10));
}

#[test]
fn up_moves_within_wrapped_logical_line() {
    let rope = Rope::from_str("0123456789abcdef\nnext");
    assert_eq!(apply_move(c3(0, 12, 3), &rope, Move::Up, 10, 10), c3(0, 3, 3));
}

#[test]
fn down_crosses_into_next_logical_line_after_last_sub() {
    let rope = Rope::from_str("0123456789abcdef\nnext");
    let c = apply_move(c3(0, 12, 3), &rope, Move::Down, 10, 10);
    assert_eq!(c.line, 1);
    assert_eq!(c.col, 3);
}

#[test]
fn line_end_goes_to_logical_end_even_on_wrapped_line() {
    let rope = Rope::from_str("0123456789abcdef");
    assert_eq!(apply_move(c3(0, 3, 3), &rope, Move::LineEnd, 10, 10).col, 16);
}

#[test]
fn line_start_goes_to_logical_col_zero_even_on_wrapped_line() {
    let rope = Rope::from_str("0123456789abcdef");
    assert_eq!(apply_move(c3(0, 12, 3), &rope, Move::LineStart, 10, 10).col, 0);
}

#[test]
fn adjust_scroll_advances_by_sub_line_when_wrapped_line_fills_viewport() {
    let rope = Rope::from_str("abcdefghijABCDEFGHIJ0123456789!@#$%^&*()qwertyuiopQWERTYUIOP");
    let s = adjust_scroll(top(0), c3(0, 40, 0), 3, &rope, 10);
    assert_eq!(s, Scroll { top: 0, top_sub_line: 2 });
}

#[test]
fn columns_are_what_is_seen_as_one_character() {
    let mut d = editor("e\u{301}x\n", 40, 10);
    d.dispatch_key(none(KeyCode::Right));
    assert_eq!(cursor(&d), cur(0, 1));
    d.dispatch_key(none(KeyCode::Char('!')));
    assert_eq!(text(&d, "file.rs"), "e\u{301}!x\n");
}
