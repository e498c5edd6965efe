use led_runtime::command::{Command, DispatchOutcome};
use led_runtime::save::apply_save_cleanup;
use led_runtime::undo::{redo_buffer, undo_buffer};
use led_runtime::columns::Cursor;
use led_runtime::editor::Dispatcher;
use led_runtime::edits::EditedBuffer;
use led_runtime::keymap::default_keymap;
use led_runtime::keys::{KeyCode, KeyEvent, KeyModifiers};
use led_runtime::paths::CanonPath;
use led_runtime::screen::{Dims, Terminal};
use led_runtime::tabs::{Tab, TabId};
use ropey::Rope;

fn none(code: KeyCode) -> KeyEvent {
    KeyEvent::new(KeyModifiers::none(), code)
}

fn ctrl(c: char) -> KeyEvent {
    KeyEvent::new(KeyModifiers::control(), KeyCode::Char(c))
}

fn terminal(cols: u16, rows: u16) -> Terminal {
    Terminal { dims: Some(Dims { cols, rows }), side_cols: 0 }
}

/// An editor whose only tab shows `file.rs`.
fn editor(body: &str, cols: u16, rows: u16) -> Dispatcher {
    let mut d = Dispatcher::new(default_keymap(), terminal(cols, rows), 0);
    d.tabs.push(Tab::fresh(TabId(1), &CanonPath::new("file.rs"), false, None));
    d.tabs.active = Some(TabId(1));
    d.edits.put("file.rs".to_string(), EditedBuffer::fresh(Rope::from_str(body)));
    d.store.set_ready("file.rs".to_string(), Rope::from_str(body));
    d
}

/// An editor with tabs whose files are not loaded.
fn tabs_only(paths: &[(&str, u64)], active: Option<u64>) -> Dispatcher {
    let mut d = Dispatcher::new(default_keymap(), terminal(10, 5), 0);
    for (p, id) in paths {
        d.tabs.push(Tab::fresh(TabId(*id), &CanonPath::new(p), false, None));
    }
    d.tabs.active = active.map(TabId);
    d
}

fn with_tab(d: &mut Dispatcher, i: usize, f: impl FnOnce(&mut Tab)) {
    let mut t = d.tabs.at(i).copy();
    f(&mut t);
    d.tabs.set(i, t);
}

fn cur(line: usize, col: usize) -> Cursor {
    Cursor { line, col, preferred_col: col }
}

fn put_cursor(d: &mut Dispatcher, line: usize, col: usize) {
    with_tab(d, 0, |t| t.cursor = cur(line, col));
}

fn cursor(d: &Dispatcher) -> Cursor {
    d.tabs.at(0).cursor
}

fn text(d: &Dispatcher, path: &str) -> String {
    d.edits.get(path).expect("loaded").rope.to_string()
}

fn version(d: &Dispatcher, path: &str) -> u64 {
    d.edits.get(path).expect("loaded").version
}

fn dirty(d: &Dispatcher, path: &str) -> bool {
    d.edits.get(path).expect("loaded").dirty()
}

// Editing

#[test]
fn arrow_up_escapes_sub_line_after_typing_triggers_re_wrap() {
    let mut d = editor("01234567890123456\n", 14, 20);
    with_tab(&mut d, 0, |t| t.cursor = Cursor { line: 0, col: 17, preferred_col: 6 });
    for _ in 0..7 {
        d.dispatch_key(none(KeyCode::Char('X')));
    }
    assert_eq!(cursor(&d).col, 24);
    assert_eq!(cursor(&d).preferred_col, 2);
    d.dispatch_key(none(KeyCode::Up));
    assert_eq!(cursor(&d).line, 0);
    assert_eq!(cursor(&d).col, 13);
    d.dispatch_key(none(KeyCode::Up));
    assert_eq!(cursor(&d).line, 0);
    assert_eq!(cursor(&d).col, 2);
}

#[test]
fn edit_insert_char_advances_cursor_and_bumps_version() {
    let mut d = editor("abc\n", 10, 5);
    put_cursor(&mut d, 0, 1);
    d.dispatch_key(none(KeyCode::Char('X')));
    assert_eq!(text(&d, "file.rs"), "aXbc\n");
    assert_eq!(cursor(&d).col, 2);
    assert_eq!(cursor(&d).preferred_col, 2);
    assert_eq!(version(&d, "file.rs"), 1);
    assert!(dirty(&d, "file.rs"));
}

#[test]
fn edit_insert_newline_splits_line_and_drops_cursor() {
    let mut d = editor("abcdef\n", 10, 5);
    put_cursor(&mut d, 0, 3);
    d.dispatch_key(none(KeyCode::Enter));
    assert_eq!(text(&d, "file.rs"), "abc\ndef\n");
    assert_eq!(cursor(&d), cur(1, 0));
    assert!(dirty(&d, "file.rs"));
}

#[test]
fn edit_backspace_deletes_char_before_cursor() {
    let mut d = editor("hello", 10, 5);
    put_cursor(&mut d, 0, 5);
    d.dispatch_key(none(KeyCode::Backspace));
    assert_eq!(text(&d, "file.rs"), "hell");
    assert_eq!(cursor(&d).col, 4);
}

#[test]
fn edit_backspace_at_column_zero_joins_with_previous_line() {
    let mut d = editor("foo\nbar\n", 10, 5);
    put_cursor(&mut d, 1, 0);
    d.dispatch_key(none(KeyCode::Backspace));
    assert_eq!(text(&d, "file.rs"), "foobar\n");
    assert_eq!(cursor(&d), cur(0, 3));
}

#[test]
fn edit_backspace_at_origin_is_a_noop() {
    let mut d = editor("abc\n", 10, 5);
    let v0 = version(&d, "file.rs");
    d.dispatch_key(none(KeyCode::Backspace));
    assert_eq!(text(&d, "file.rs"), "abc\n");
    assert_eq!(version(&d, "file.rs"), v0);
    assert!(!dirty(&d, "file.rs"));
}

#[test]
fn edit_delete_forward_removes_char_at_cursor() {
    let mut d = editor("hello", 10, 5);
    put_cursor(&mut d, 0, 1);
    d.dispatch_key(none(KeyCode::Delete));
    assert_eq!(text(&d, "file.rs"), "hllo");
    assert_eq!(cursor(&d).col, 1);
}

#[test]
fn edit_delete_forward_at_end_of_line_joins_with_next() {
    let mut d = editor("foo\nbar", 10, 5);
    put_cursor(&mut d, 0, 3);
    d.dispatch_key(none(KeyCode::Delete));
    assert_eq!(text(&d, "file.rs"), "foobar");
    assert_eq!(cursor(&d).col, 3);
}

#[test]
fn edit_delete_forward_at_eof_is_a_noop() {
    let mut d = editor("abc", 10, 5);
    put_cursor(&mut d, 0, 3);
    let v0 = version(&d, "file.rs");
    d.dispatch_key(none(KeyCode::Delete));
    assert_eq!(text(&d, "file.rs"), "abc");
    assert_eq!(version(&d, "file.rs"), v0);
}

#[test]
fn edit_edit_on_unloaded_buffer_is_swallowed() {
    let mut d = tabs_only(&[("file.rs", 1)], Some(1));
    for code in [KeyCode::Char('x'), KeyCode::Enter, KeyCode::Backspace, KeyCode::Delete] {
        d.dispatch_key(none(code));
    }
    assert!(d.edits.buffers.is_empty());
    assert_eq!(cursor(&d), Cursor::origin());
}

#[test]
fn ctrl_c_does_not_insert_c() {
    let mut d = editor("", 10, 5);
    assert_eq!(d.dispatch_key(ctrl('c')), DispatchOutcome::Continue);
    assert_eq!(text(&d, "file.rs"), "");
    assert!(!dirty(&d, "file.rs"));
}

#[test]
fn edit_edits_survive_tab_switch() {
    let mut d = tabs_only(&[("a", 1), ("b", 2)], Some(1));
    d.edits.put("a".to_string(), EditedBuffer::fresh(Rope::from_str("a")));
    d.edits.put("b".to_string(), EditedBuffer::fresh(Rope::from_str("b")));
    put_cursor(&mut d, 0, 1);
    d.dispatch_key(none(KeyCode::Char('!')));
    d.dispatch_key(KeyEvent::new(KeyModifiers::control(), KeyCode::Right));
    with_tab(&mut d, 1, |t| t.cursor = cur(0, 1));
    d.dispatch_key(none(KeyCode::Char('?')));
    assert_eq!(text(&d, "a"), "a!");
    assert_eq!(text(&d, "b"), "b?");
    assert!(dirty(&d, "a"));
    assert!(dirty(&d, "b"));
}

#[test]
fn typed_words_are_undone_and_redone_at_once() {
    let mut d = editor("", 20, 5);
    for c in "word".chars() {
        d.dispatch_key(none(KeyCode::Char(c)));
    }
    assert_eq!(text(&d, "file.rs"), "word");
    d.keymap.insert_direct(ctrl('u'), Command::Undo);
    d.keymap.insert_direct(ctrl('r'), Command::Redo);
    d.dispatch_key(ctrl('u'));
    assert_eq!(text(&d, "file.rs"), "");
    d.dispatch_key(ctrl('r'));
    assert_eq!(text(&d, "file.rs"), "word");
}

#[test]
fn undoing_everything_leads_back_to_the_loaded_text() {
    let mut d = editor("one two\nthree", 20, 5);
    d.keymap.insert_direct(ctrl('u'), Command::Undo);
    d.keymap.insert_direct(ctrl('r'), Command::Redo);
    d.dispatch_key(none(KeyCode::Char('x')));
    d.dispatch_key(none(KeyCode::Right));
    d.dispatch_key(none(KeyCode::Enter));
    d.dispatch_key(ctrl('k'));
    d.dispatch_key(none(KeyCode::Backspace));
    d.dispatch_key(none(KeyCode::Char('y')));
    let last = text(&d, "file.rs");
    assert_ne!(last, "one two\nthree");
    for _ in 0..10 {
        d.dispatch_key(ctrl('u'));
    }
    assert_eq!(text(&d, "file.rs"), "one two\nthree");
    for _ in 0..10 {
        d.dispatch_key(ctrl('r'));
    }
    assert_eq!(text(&d, "file.rs"), last);
}

#[test]
fn a_new_line_keeps_the_indentation() {
    let mut d = editor("    x", 20, 5);
    put_cursor(&mut d, 0, 5);
    d.dispatch_key(none(KeyCode::Enter));
    assert_eq!(text(&d, "file.rs"), "    x\n    ");
    assert_eq!(cursor(&d).col, 4);
}

// Saving

fn chord(d: &mut Dispatcher, second: KeyEvent) {
    d.dispatch_key(ctrl('x'));
    d.dispatch_key(second);
}

fn dirtied(text: &str, version: u64) -> EditedBuffer {
    let mut eb = EditedBuffer::fresh(Rope::from_str(text));
    eb.version = version;
    eb.disk_content_hash = 0;
    eb
}

#[test]
fn ctrl_x_ctrl_d_queues_direct_save_for_dirty_active_buffer() {
    let mut d = editor("hi", 10, 5);
    d.edits.put("file.rs".to_string(), dirtied("hi", 1));
    assert!(dirty(&d, "file.rs"));
    chord(&mut d, ctrl('d'));
    assert!(d.edits.pending_saves.contains("file.rs"));
}

#[test]
fn ctrl_x_ctrl_s_on_clean_buffer_writes_directly_when_no_lsp() {
    let mut d = editor("hi", 10, 5);
    chord(&mut d, ctrl('s'));
    assert!(d.edits.pending_saves.contains("file.rs"));
}

#[test]
fn ctrl_x_ctrl_d_on_clean_buffer_still_queues_save() {
    let mut d = editor("hi", 10, 5);
    chord(&mut d, ctrl('d'));
    assert!(d.edits.pending_saves.contains("file.rs"));
}

#[test]
fn ctrl_x_ctrl_s_on_unloaded_buffer_is_noop() {
    let mut d = tabs_only(&[("file.rs", 1)], Some(1));
    chord(&mut d, ctrl('s'));
    assert!(d.edits.pending_saves.members().is_empty());
}

#[test]
fn save_all_enqueues_every_dirty_buffer() {
    let mut d = tabs_only(&[("a", 1), ("b", 2), ("c", 3)], Some(1));
    d.edits.put("a".to_string(), dirtied("A", 1));
    d.edits.put("b".to_string(), EditedBuffer::fresh(Rope::from_str("B")));
    d.edits.put("c".to_string(), dirtied("C", 2));
    chord(&mut d, ctrl('a'));
    assert!(d.edits.pending_saves.contains("a"));
    assert!(d.edits.pending_saves.contains("c"));
    assert!(!d.edits.pending_saves.contains("b"));
}

fn cleaned(text: &str, at: Cursor) -> (EditedBuffer, Cursor) {
    let mut eb = EditedBuffer::fresh(Rope::from_str(text));
    let mut clock: u64 = 0;
    let after = apply_save_cleanup(&mut eb, &mut clock, at);
    (eb, after)
}

#[test]
fn cleanup_strips_trailing_whitespace_per_line() {
    let (eb, _) = cleaned("hello   \nworld\t\t\n", Cursor::origin());
    assert_eq!(eb.rope.to_string(), "hello\nworld\n");
}

#[test]
fn cleanup_appends_final_newline_when_missing() {
    let (eb, _) = cleaned("no newline at end", Cursor::origin());
    assert_eq!(eb.rope.to_string(), "no newline at end\n");
}

#[test]
fn cleanup_strips_and_adds_newline_in_one_pass() {
    let (eb, _) = cleaned("trailing   ", Cursor::origin());
    assert_eq!(eb.rope.to_string(), "trailing\n");
}

#[test]
fn cleanup_clean_buffer_is_noop() {
    let (eb, _) = cleaned("hello\nworld\n", Cursor::origin());
    assert_eq!(eb.rope.to_string(), "hello\nworld\n");
    assert_eq!(eb.version, 0);
}

#[test]
fn cleanup_empty_buffer_is_noop() {
    let (eb, _) = cleaned("", Cursor::origin());
    assert_eq!(eb.rope.to_string(), "");
    assert_eq!(eb.version, 0);
}

#[test]
fn cleanup_preserves_blank_lines_inside_buffer() {
    let (eb, _) = cleaned("a\n   \n\nb\n", Cursor::origin());
    assert_eq!(eb.rope.to_string(), "a\n\n\nb\n");
}

#[test]
fn cleanup_is_undoable() {
    let (mut eb, _) = cleaned("hello   \n", cur(0, 5));
    assert_eq!(eb.rope.to_string(), "hello\n");
    assert!(undo_buffer(&mut eb).is_some());
    assert_eq!(eb.rope.to_string(), "hello   \n");
    assert!(redo_buffer(&mut eb).is_some());
    assert_eq!(eb.rope.to_string(), "hello\n");
}

#[test]
fn cleanup_clamps_cursor_when_it_sits_in_stripped_whitespace() {
    let (eb, after) = cleaned("hello   \n", cur(0, 8));
    assert_eq!(eb.rope.to_string(), "hello\n");
    assert_eq!(after.col, 5);
    assert_eq!(after.preferred_col, 5);
}

#[test]
fn cleanup_via_save_dispatch_strips_trailing_whitespace() {
    let mut d = editor("hello   \nworld\n", 20, 5);
    chord(&mut d, ctrl('s'));
    assert_eq!(text(&d, "file.rs"), "hello\nworld\n");
    assert!(d.edits.pending_saves.contains("file.rs"));
}
