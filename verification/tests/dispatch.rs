use led_runtime::command::{should_record, Command, DispatchOutcome};
use led_runtime::dispatch::Event;
use led_runtime::editor::RECURSION_LIMIT;
use led_runtime::keymap::Keymap;
use led_runtime::keys::parse_key;
use led_runtime::kill::apply_yank;
use led_runtime::columns::Cursor;
use led_runtime::editor::Dispatcher;
use led_runtime::edits::EditedBuffer;
use led_runtime::keymap::default_keymap;
use led_runtime::keys::{KeyCode, KeyEvent, KeyModifiers};
use led_runtime::paths::CanonPath;
use led_runtime::screen::{Dims, Terminal};
use led_runtime::tab_ops::force_kill;
use led_runtime::store::LoadState;
use led_runtime::tabs::{close_preview, next_tab_id, open_or_focus_tab, Tab, TabId};
use ropey::Rope;

fn none(code: KeyCode) -> KeyEvent {
    KeyEvent::new(KeyModifiers::none(), code)
}

fn ctrl(c: char) -> KeyEvent {
    KeyEvent::new(KeyModifiers::control(), KeyCode::Char(c))
}

fn terminal(cols: u16, rows: u16) -> Terminal {
    Terminal { dims: Some(Dims { cols, rows }), side_cols: 0 }
}

/// An editor whose only tab shows `file.rs`.
fn editor(body: &str, cols: u16, rows: u16) -> Dispatcher {
    let mut d = Dispatcher::new(default_keymap(), terminal(cols, rows), 0);
    d.tabs.push(Tab::fresh(TabId(1), &CanonPath::new("file.rs"), false, None));
    d.tabs.active = Some(TabId(1));
    d.edits.put("file.rs".to_string(), EditedBuffer::fresh(Rope::from_str(body)));
    d.store.set_ready("file.rs".to_string(), Rope::from_str(body));
    d
}

/// An editor with tabs whose files are not loaded.
fn tabs_only(paths: &[(&str, u64)], active: Option<u64>) -> Dispatcher {
    let mut d = Dispatcher::new(default_keymap(), terminal(10, 5), 0);
    for (p, id) in paths {
        d.tabs.push(Tab::fresh(TabId(*id), &CanonPath::new(p), false, None));
    }
    d.tabs.active = active.map(TabId);
    d
}

fn with_tab(d: &mut Dispatcher, i: usize, f: impl FnOnce(&mut Tab)) {
    let mut t = d.tabs.at(i).copy();
    f(&mut t);
    d.tabs.set(i, t);
}

fn cur(line: usize, col: usize) -> Cursor {
    Cursor { line, col, preferred_col: col }
}

fn put_cursor(d: &mut Dispatcher, line: usize, col: usize) {
    with_tab(d, 0, |t| t.cursor = cur(line, col));
}

fn cursor(d: &Dispatcher) -> Cursor {
    d.tabs.at(0).cursor
}

fn text(d: &Dispatcher, path: &str) -> String {
    d.edits.get(path).expect("loaded").rope.to_string()
}

fn dirtied(text: &str, version: u64) -> EditedBuffer {
    let mut eb = EditedBuffer::fresh(Rope::from_str(text));
    eb.version = version;
    eb
}

fn fresh(text: &str) -> EditedBuffer {
    EditedBuffer::fresh(Rope::from_str(text))
}

fn chord(d: &mut Dispatcher, second: KeyEvent) -> DispatchOutcome {
    d.dispatch_key(ctrl('x'));
    d.dispatch_key(second)
}

fn info(d: &Dispatcher) -> Option<&str> {
    d.alerts.info.as_ref().map(|i| i.text.as_str())
}

// Keys and chords

#[test]
fn ctrl_x_ctrl_c_signals_quit_as_chord() {
    let mut d = tabs_only(&[("a", 1)], Some(1));
    d.terminal = Terminal { dims: None, side_cols: 0 };
    assert_eq!(d.dispatch_key(ctrl('x')), DispatchOutcome::Continue);
    assert!(d.chord.pending.is_some());
    assert_eq!(d.dispatch_key(ctrl('c')), DispatchOutcome::Quit);
    assert!(d.chord.pending.is_none());
}

#[test]
fn plain_ctrl_c_no_longer_quits() {
    let mut d = tabs_only(&[("a", 1)], Some(1));
    assert_eq!(d.dispatch_key(ctrl('c')), DispatchOutcome::Continue);
}

#[test]
fn unknown_second_key_in_chord_cancels_silently() {
    let mut d = editor("hi", 10, 5);
    d.dispatch_key(ctrl('x'));
    assert!(d.chord.pending.is_some());
    let outcome = d.dispatch_key(none(KeyCode::Char('z')));
    assert_eq!(outcome, DispatchOutcome::Continue);
    assert!(d.chord.pending.is_none());
    assert_eq!(text(&d, "file.rs"), "hi");
}

#[test]
fn mod_custom_keymap_routes_to_the_bound_command() {
    let mut d = tabs_only(&[("a", 1)], Some(1));
    d.keymap = Keymap::new();
    d.keymap.insert_direct(parse_key("ctrl+q").unwrap(), Command::Quit);
    assert_eq!(d.dispatch_key(ctrl('q')), DispatchOutcome::Quit);
    assert_eq!(d.dispatch_key(ctrl('c')), DispatchOutcome::Continue);
}

#[test]
fn suspend_command_returns_dispatch_outcome_suspend() {
    let mut d = tabs_only(&[("a", 1)], Some(1));
    assert_eq!(d.dispatch_key(ctrl('z')), DispatchOutcome::Suspend);
}

#[test]
fn mod_unbound_printable_char_falls_through_to_insert() {
    let mut d = editor("", 10, 5);
    d.keymap = Keymap::new();
    d.dispatch_key(none(KeyCode::Char('z')));
    assert_eq!(text(&d, "file.rs"), "z");
}

#[test]
fn mod_ctrl_char_without_binding_is_swallowed_not_inserted() {
    let mut d = editor("", 10, 5);
    d.keymap = Keymap::new();
    d.dispatch_key(ctrl('x'));
    assert_eq!(text(&d, "file.rs"), "");
}

#[test]
fn ctrl_x_ctrl_s_targets_only_active_tab() {
    let mut d = tabs_only(&[("a", 1), ("b", 2)], Some(2));
    d.edits.put("a".to_string(), dirtied("A", 1));
    d.edits.put("b".to_string(), dirtied("B", 1));
    chord(&mut d, ctrl('d'));
    assert!(d.edits.pending_saves.contains("b"));
    assert!(!d.edits.pending_saves.contains("a"));
}

#[test]
fn abort_is_a_noop_at_the_plain_editor_level() {
    let mut d = tabs_only(&[("a", 1)], Some(1));
    assert_eq!(d.dispatch_key(none(KeyCode::Esc)), DispatchOutcome::Continue);
}

#[test]
fn alt_enter_queues_goto_definition_at_cursor() {
    let mut d = editor("line0\nline1\nline2 word", 20, 5);
    put_cursor(&mut d, 2, 4);
    d.lsp_status.by_server.push("rust-analyzer".to_string());
    d.dispatch_key(KeyEvent::new(KeyModifiers::alt(), KeyCode::Enter));
    assert_eq!(d.lsp_pending.pending_goto.len(), 1);
    let req = &d.lsp_pending.pending_goto[0];
    assert_eq!(req.path.as_str(), "file.rs");
    assert_eq!(req.line, 2);
    assert_eq!(req.col, 4);
    assert_eq!(d.lsp_pending.latest_goto_seq, Some(req.seq));
}

#[test]
fn alt_enter_is_noop_without_active_tab() {
    let mut d = tabs_only(&[], None);
    d.dispatch_key(KeyEvent::new(KeyModifiers::alt(), KeyCode::Enter));
    assert!(d.lsp_pending.pending_goto.is_empty());
}

#[test]
fn resizing_and_quitting_are_events_too() {
    let mut d = editor("abc", 10, 5);
    assert_eq!(d.dispatch(Event::Resize(Dims { cols: 4, rows: 4 })), DispatchOutcome::Continue);
    assert_eq!(d.dispatch(Event::Key(ctrl('z'))), DispatchOutcome::Suspend);
    assert_eq!(d.dispatch(Event::Quit), DispatchOutcome::Quit);
}

// Keyboard macros

#[test]
fn should_record_excludes_meta_actions() {
    assert!(!should_record(&Command::Quit));
    assert!(!should_record(&Command::Suspend));
    assert!(!should_record(&Command::Wait(0)));
    assert!(!should_record(&Command::KbdMacroStart));
    assert!(!should_record(&Command::KbdMacroEnd));
    assert!(should_record(&Command::KbdMacroExecute));
    assert!(should_record(&Command::CursorDown));
    assert!(should_record(&Command::InsertChar('x')));
}

fn macro_fixture() -> Dispatcher {
    editor("abc\nxyz\n", 80, 24)
}

#[test]
fn kbd_macro_start_seeds_recording_and_alert() {
    let mut d = macro_fixture();
    d.dispatch_key(ctrl('x'));
    assert!(d.chord.pending.is_some());
    d.dispatch_key(none(KeyCode::Char('(')));
    assert!(d.kbd_macro.recording);
    assert!(d.kbd_macro.current.is_empty());
    assert_eq!(info(&d), Some("Defining kbd macro..."));
}

#[test]
fn kbd_macro_start_while_recording_clears_current() {
    let mut d = macro_fixture();
    d.kbd_macro.recording = true;
    d.kbd_macro.current.push(Command::CursorDown);
    d.kbd_macro.current.push(Command::InsertChar('a'));
    chord(&mut d, none(KeyCode::Char('(')));
    assert!(d.kbd_macro.recording);
    assert!(d.kbd_macro.current.is_empty());
}

#[test]
fn kbd_macro_end_while_recording_moves_current_to_last() {
    let mut d = macro_fixture();
    d.kbd_macro.recording = true;
    d.kbd_macro.current.push(Command::CursorDown);
    d.kbd_macro.current.push(Command::InsertChar('!'));
    chord(&mut d, none(KeyCode::Char(')')));
    assert!(!d.kbd_macro.recording);
    assert!(d.kbd_macro.current.is_empty());
    let last = d.kbd_macro.last.as_ref().expect("last set");
    assert_eq!(last.as_slice(), &[Command::CursorDown, Command::InsertChar('!')]);
    assert_eq!(info(&d), Some("Keyboard macro defined"));
}

#[test]
fn kbd_macro_end_without_start_alerts_only() {
    let mut d = macro_fixture();
    assert!(!d.kbd_macro.recording);
    chord(&mut d, none(KeyCode::Char(')')));
    assert!(!d.kbd_macro.recording);
    assert!(d.kbd_macro.last.is_none());
    assert_eq!(info(&d), Some("Not defining kbd macro"));
}

#[test]
fn kbd_macro_execute_with_no_macro_alerts() {
    let mut d = macro_fixture();
    assert!(d.kbd_macro.last.is_none());
    chord(&mut d, none(KeyCode::Char('e')));
    assert_eq!(info(&d), Some("No kbd macro defined"));
}

#[test]
fn recording_hook_pushes_resolved_commands() {
    let mut d = macro_fixture();
    d.kbd_macro.recording = true;
    d.dispatch_key(none(KeyCode::Down));
    d.dispatch_key(none(KeyCode::Char('z')));
    assert_eq!(
        d.kbd_macro.current.as_slice(),
        &[Command::CursorDown, Command::InsertChar('z')]
    );
}

#[test]
fn kbd_macro_execute_replays_recorded_commands() {
    let mut d = macro_fixture();
    d.kbd_macro.last = Some(vec![Command::CursorDown]);
    let start_line = cursor(&d).line;
    chord(&mut d, none(KeyCode::Char('e')));
    assert_eq!(cursor(&d).line, start_line + 1);
    assert_eq!(d.kbd_macro.playback_depth, 0);
}

#[test]
fn kbd_macro_execute_honours_count_prefix() {
    let mut d = macro_fixture();
    d.kbd_macro.last = Some(vec![Command::InsertChar('!')]);
    d.kbd_macro.execute_count = Some(3);
    let start_len = text(&d, "file.rs").chars().count();
    chord(&mut d, none(KeyCode::Char('e')));
    let end_len = text(&d, "file.rs").chars().count();
    assert_eq!(end_len - start_len, 3);
    assert!(d.kbd_macro.execute_count.is_none());
}

#[test]
fn kbd_macro_execute_recursion_guard_aborts() {
    let mut d = macro_fixture();
    d.kbd_macro.last = Some(vec![Command::InsertChar('!')]);
    d.kbd_macro.playback_depth = RECURSION_LIMIT;
    let before = text(&d, "file.rs");
    chord(&mut d, none(KeyCode::Char('e')));
    assert_eq!(text(&d, "file.rs"), before);
    assert_eq!(info(&d), Some("Keyboard macro recursion limit"));
}

#[test]
fn chord_count_accumulates_digits() {
    let mut d = macro_fixture();
    d.kbd_macro.last = Some(vec![Command::CursorRight]);
    d.dispatch_key(ctrl('x'));
    assert!(d.chord.pending.is_some());
    d.dispatch_key(none(KeyCode::Char('4')));
    assert!(d.chord.pending.is_some());
    assert_eq!(d.chord.count, Some(4));
    d.dispatch_key(none(KeyCode::Char('2')));
    assert_eq!(d.chord.count, Some(42));
    d.dispatch_key(none(KeyCode::Char('e')));
    assert!(d.kbd_macro.execute_count.is_none());
    assert_eq!(d.chord.count, None);
}

#[test]
fn macro_repeat_latch_fires_bare_e() {
    let mut d = macro_fixture();
    d.kbd_macro.last = Some(vec![Command::CursorDown]);
    chord(&mut d, none(KeyCode::Char('e')));
    assert!(d.chord.macro_repeat);
    let before = text(&d, "file.rs");
    d.dispatch_key(none(KeyCode::Char('e')));
    assert_eq!(text(&d, "file.rs"), before);
}

#[test]
fn macro_repeat_latch_clears_on_other_key() {
    let mut d = macro_fixture();
    d.kbd_macro.last = Some(vec![Command::CursorDown]);
    chord(&mut d, none(KeyCode::Char('e')));
    assert!(d.chord.macro_repeat);
    d.dispatch_key(none(KeyCode::Down));
    assert!(!d.chord.macro_repeat);
    let before = text(&d, "file.rs");
    d.dispatch_key(none(KeyCode::Char('e')));
    let after = text(&d, "file.rs");
    assert!(after.contains('e') && after.len() == before.len() + 1);
}

#[test]
fn macro_repeat_latch_persists_after_failed_execute() {
    let mut d = macro_fixture();
    assert!(d.kbd_macro.last.is_none());
    chord(&mut d, none(KeyCode::Char('e')));
    assert_eq!(info(&d), Some("No kbd macro defined"));
    assert!(d.chord.macro_repeat);
}

#[test]
fn nested_kbd_macro_execute_is_recordable() {
    let mut d = macro_fixture();
    d.kbd_macro.recording = true;
    chord(&mut d, none(KeyCode::Char('e')));
    assert_eq!(d.kbd_macro.current.as_slice(), &[Command::KbdMacroExecute]);
}

#[test]
fn a_macro_that_runs_itself_ends() {
    let mut d = macro_fixture();
    d.kbd_macro.last = Some(vec![Command::InsertChar('!'), Command::KbdMacroExecute]);
    chord(&mut d, none(KeyCode::Char('e')));
    assert_eq!(text(&d, "file.rs").matches('!').count(), RECURSION_LIMIT);
    assert_eq!(d.kbd_macro.playback_depth, 0);
}

// Tabs

#[test]
fn ctrl_right_cycles_active_forward() {
    let mut d = tabs_only(&[("a", 1), ("b", 2), ("c", 3)], Some(1));
    let right = KeyEvent::new(KeyModifiers::control(), KeyCode::Right);
    d.dispatch_key(right);
    assert_eq!(d.tabs.active, Some(TabId(2)));
    d.dispatch_key(right);
    assert_eq!(d.tabs.active, Some(TabId(3)));
    d.dispatch_key(right);
    assert_eq!(d.tabs.active, Some(TabId(1)));
}

#[test]
fn tabs_shift_tab_cycles_backward() {
    let mut d = tabs_only(&[("a", 1), ("b", 2), ("c", 3)], Some(1));
    d.dispatch_key(KeyEvent::new(KeyModifiers::shift(), KeyCode::Tab));
    assert_eq!(d.tabs.active, Some(TabId(3)));
    d.dispatch_key(none(KeyCode::BackTab));
    assert_eq!(d.tabs.active, Some(TabId(2)));
}

#[test]
fn ctrl_right_on_empty_does_nothing() {
    let mut d = tabs_only(&[], None);
    d.dispatch_key(KeyEvent::new(KeyModifiers::control(), KeyCode::Right));
    assert_eq!(d.tabs.active, None);
}

#[test]
fn kill_buffer_closes_clean_active_tab() {
    let mut d = tabs_only(&[("a", 1), ("b", 2)], Some(1));
    d.edits.put("a".to_string(), fresh("A"));
    d.edits.put("b".to_string(), fresh("B"));
    chord(&mut d, none(KeyCode::Char('k')));
    assert_eq!(d.tabs.len(), 1);
    assert_eq!(d.tabs.at(0).id, TabId(2));
    assert!(!d.edits.has("a"));
}

fn confirm_scenario() -> Dispatcher {
    let mut d = tabs_only(&[("a", 1), ("b", 2)], Some(1));
    d.edits.put("a".to_string(), dirtied("A", 1));
    d.edits.put("b".to_string(), fresh("B"));
    d
}

fn confirming() -> Dispatcher {
    let mut d = confirm_scenario();
    d.alerts.confirm_kill = Some(TabId(1));
    d
}

#[test]
fn kill_buffer_on_dirty_raises_confirm_prompt() {
    let mut d = confirm_scenario();
    chord(&mut d, none(KeyCode::Char('k')));
    assert_eq!(d.alerts.confirm_kill, Some(TabId(1)));
    assert_eq!(d.tabs.len(), 2);
}

#[test]
fn confirm_kill_y_force_kills_and_clears_prompt() {
    let mut d = confirming();
    d.dispatch_key(none(KeyCode::Char('y')));
    assert!(d.alerts.confirm_kill.is_none());
    assert_eq!(d.tabs.len(), 1);
    assert_eq!(d.tabs.at(0).id, TabId(2));
    assert!(!d.edits.has("a"));
}

#[test]
fn confirm_kill_capital_y_also_confirms() {
    let mut d = confirming();
    d.dispatch_key(none(KeyCode::Char('Y')));
    assert!(d.alerts.confirm_kill.is_none());
    assert_eq!(d.tabs.len(), 1);
}

#[test]
fn confirm_kill_n_dismisses_and_inserts() {
    let mut d = confirming();
    d.dispatch_key(none(KeyCode::Char('n')));
    assert!(d.alerts.confirm_kill.is_none());
    assert_eq!(d.tabs.len(), 2);
    assert_eq!(text(&d, "a"), "nA");
}

#[test]
fn confirm_kill_esc_dismisses_and_clears_mark() {
    let mut d = confirming();
    with_tab(&mut d, 0, |t| t.mark = Some(cur(0, 0)));
    d.dispatch_key(none(KeyCode::Esc));
    assert!(d.alerts.confirm_kill.is_none());
    assert_eq!(d.tabs.len(), 2);
    assert!(d.tabs.at(0).mark.is_none());
}

#[test]
fn kill_buffer_on_clean_still_kills_without_prompt() {
    let mut d = tabs_only(&[("a", 1), ("b", 2)], Some(1));
    d.edits.put("a".to_string(), fresh("A"));
    chord(&mut d, none(KeyCode::Char('k')));
    assert!(d.alerts.confirm_kill.is_none());
    assert_eq!(d.tabs.len(), 1);
}

// Killing, yanking and the mark

#[test]
fn kill_region_removes_marked_range_into_ring() {
    let mut d = editor("abcdefgh", 20, 5);
    put_cursor(&mut d, 0, 2);
    with_tab(&mut d, 0, |t| t.mark = Some(cur(0, 6)));
    d.dispatch_key(ctrl('w'));
    assert_eq!(text(&d, "file.rs"), "abgh");
    assert_eq!(d.kill_ring.latest.as_deref(), Some("cdef"));
    assert_eq!(cursor(&d).col, 2);
    assert!(d.tabs.at(0).mark.is_none());
}

#[test]
fn kill_region_handles_mark_after_cursor() {
    let mut d = editor("abcdefgh", 20, 5);
    put_cursor(&mut d, 0, 6);
    with_tab(&mut d, 0, |t| t.mark = Some(cur(0, 2)));
    d.dispatch_key(ctrl('w'));
    assert_eq!(text(&d, "file.rs"), "abgh");
    assert_eq!(d.kill_ring.latest.as_deref(), Some("cdef"));
    assert_eq!(cursor(&d).col, 2);
}

#[test]
fn kill_line_kills_to_eol() {
    let mut d = editor("foo bar\nbaz", 20, 5);
    put_cursor(&mut d, 0, 4);
    d.dispatch_key(ctrl('k'));
    assert_eq!(text(&d, "file.rs"), "foo \nbaz");
    assert_eq!(d.kill_ring.latest.as_deref(), Some("bar"));
    assert!(d.kill_ring.last_was_kill_line);
}

#[test]
fn kill_line_at_eol_joins_with_next() {
    let mut d = editor("foo\nbar", 20, 5);
    put_cursor(&mut d, 0, 3);
    d.dispatch_key(ctrl('k'));
    assert_eq!(text(&d, "file.rs"), "foobar");
    assert_eq!(d.kill_ring.latest.as_deref(), Some("\n"));
}

#[test]
fn consecutive_kill_lines_coalesce() {
    let mut d = editor("aaa\nbbb\nccc", 20, 5);
    d.dispatch_key(ctrl('k'));
    d.dispatch_key(ctrl('k'));
    assert_eq!(d.kill_ring.latest.as_deref(), Some("aaa\n"));
}

#[test]
fn non_kill_command_breaks_coalescing() {
    let mut d = editor("aaa\nbbb", 20, 5);
    d.dispatch_key(ctrl('k'));
    assert!(d.kill_ring.last_was_kill_line);
    d.dispatch_key(none(KeyCode::Right));
    assert!(!d.kill_ring.last_was_kill_line);
}

#[test]
fn yank_sets_pending_on_active_tab() {
    let mut d = editor("x", 20, 5);
    d.dispatch_key(ctrl('y'));
    assert_eq!(d.clip.pending_yank, Some(TabId(1)));
}

#[test]
fn apply_yank_inserts_text_at_cursor() {
    let mut d = editor("hello", 20, 5);
    put_cursor(&mut d, 0, 3);
    apply_yank(&mut d.tabs, &mut d.edits, TabId(1), "XYZ", 18, &d.cells);
    assert_eq!(text(&d, "file.rs"), "helXYZlo");
    assert_eq!(cursor(&d).col, 6);
}

#[test]
fn kill_region_noop_when_no_mark() {
    let mut d = editor("abc", 20, 5);
    assert!(d.tabs.at(0).mark.is_none());
    d.dispatch_key(ctrl('w'));
    assert_eq!(text(&d, "file.rs"), "abc");
    assert!(d.kill_ring.latest.is_none());
}

#[test]
fn set_mark_captures_current_cursor() {
    let mut d = editor("abc\ndef", 20, 5);
    put_cursor(&mut d, 1, 2);
    d.dispatch_key(ctrl(' '));
    assert_eq!(d.tabs.at(0).mark, Some(cur(1, 2)));
}

#[test]
fn abort_clears_mark() {
    let mut d = tabs_only(&[("a", 1)], Some(1));
    with_tab(&mut d, 0, |t| t.mark = Some(cur(0, 3)));
    d.dispatch_key(none(KeyCode::Esc));
    assert!(d.tabs.at(0).mark.is_none());
}

#[test]
fn a_command_drops_the_count_of_its_chord() {
    let mut d = editor("a", 10, 5);
    d.dispatch_key(ctrl('x'));
    d.dispatch_key(none(KeyCode::Char('3')));
    assert_eq!(d.chord.count, Some(3));
    d.dispatch_key(ctrl('d'));
    assert_eq!(d.chord.pending, None);
    assert_eq!(d.chord.count, None);
}

#[test]
fn ids_of_closed_tabs_are_not_given_again() {
    let mut d = tabs_only(&[("a", 1), ("b", 2)], Some(2));
    assert_eq!(next_tab_id(&d.tabs), TabId(3));
    force_kill(&mut d.tabs, &mut d.edits, TabId(2));
    assert_eq!(next_tab_id(&d.tabs), TabId(3));
    open_or_focus_tab(&mut d.tabs, &CanonPath::new("c"), false);
    assert_eq!(d.tabs.active, Some(TabId(3)));
    close_preview(&mut d.tabs);
    open_or_focus_tab(&mut d.tabs, &CanonPath::new("c"), true);
    assert_eq!(d.tabs.active, Some(TabId(4)));
}

#[test]
fn a_macro_that_plays_itself_ends_with_all_its_levels() {
    let mut d = macro_fixture();
    d.kbd_macro.last = Some(vec![
        Command::InsertChar('a'),
        Command::KbdMacroExecute,
        Command::InsertChar('b'),
    ]);
    d.kbd_macro.execute_count = Some(2);
    let before = text(&d, "file.rs");
    chord(&mut d, none(KeyCode::Char('e')));
    assert_eq!(text(&d, "file.rs"), "a".repeat(RECURSION_LIMIT) + &before);
    assert_eq!(info(&d), Some("Keyboard macro recursion limit"));
    assert_eq!(d.kbd_macro.playback_depth, 0);
}

#[test]
fn an_edit_makes_the_cursor_aim_by_cells() {
    let mut d = editor("\u{6F22}", 20, 5);
    d.cells.set("\u{6F22}".to_string(), 2);
    put_cursor(&mut d, 0, 1);
    d.dispatch_key(none(KeyCode::Char('x')));
    assert_eq!((cursor(&d).col, cursor(&d).preferred_col), (2, 3));
    let mut d = editor("", 20, 5);
    d.cells.set("\u{6F22}".to_string(), 2);
    apply_yank(&mut d.tabs, &mut d.edits, TabId(1), "\u{6F22}\u{6F22}", 18, &d.cells);
    assert_eq!((cursor(&d).col, cursor(&d).preferred_col), (2, 4));
}

#[test]
fn keys_leave_what_they_only_read() {
    let mut d = editor("abc\n", 20, 5);
    d.store.loaded.insert("gone.rs".to_string(), LoadState::Failed);
    d.store.set_ready("new.rs".to_string(), Rope::from_str("n"));
    d.lsp_status.by_server.push("rust-analyzer".to_string());
    d.kbd_macro.last = Some(vec![Command::InsertChar('!'), Command::CursorRight]);
    d.dispatch_key(none(KeyCode::Char('x')));
    chord(&mut d, none(KeyCode::Char('e')));
    chord(&mut d, ctrl('s'));
    assert_eq!(d.lsp_status.by_server, vec!["rust-analyzer".to_string()]);
    assert!(matches!(d.store.loaded.get("gone.rs"), Some(LoadState::Failed)));
    assert_eq!(d.store.ready("file.rs").unwrap().to_string(), "abc\n");
    assert_eq!(d.store.ready("new.rs").unwrap().to_string(), "n");
    assert_eq!(d.terminal, terminal(20, 5));
}
