use led_runtime::alerts::AlertState;
use led_runtime::buffers::BufferEdits;
use led_runtime::columns::{Cursor, Scroll};
use led_runtime::diagnostics::{
    BufferDiagnostics, Diagnostic, DiagnosticSeverity, DiagnosticsStates, GitState, IssueCategory,
    LineStatus,
};
use led_runtime::edits::EditedBuffer;
use led_runtime::issues::{
    compute_navigation, next_issue_active, pick_target_index, prev_issue_active, Pos,
};
use led_runtime::jumps::{JumpListState, JumpPosition};
use led_runtime::nav::{jump_back, jump_forward, match_bracket};
use led_runtime::paths::CanonPath;
use led_runtime::screen::{Dims, Terminal};
use led_runtime::tab_ops::cycle_active;
use led_runtime::tabs::{Tab, TabId, Tabs};
use ropey::Rope;

fn seed(path: &str, body: &str) -> (Tabs, BufferEdits) {
    let mut tabs = Tabs::new();
    tabs.push(Tab::fresh(TabId(1), &CanonPath::new(path), false, None));
    tabs.active = Some(TabId(1));
    let mut edits = BufferEdits::new();
    edits.put(path.to_string(), EditedBuffer::fresh(Rope::from_str(body)));
    (tabs, edits)
}

fn cur(line: usize, col: usize) -> Cursor {
    Cursor { line, col, preferred_col: col }
}

fn set_cursor(tabs: &mut Tabs, line: usize, col: usize) {
    let mut t = tabs.at(0).copy();
    t.cursor = cur(line, col);
    tabs.set(0, t);
}

fn col(tabs: &Tabs) -> usize {
    tabs.at(0).cursor.col
}

fn position(path: &str, line: usize, col: usize) -> JumpPosition {
    JumpPosition { path: CanonPath::new(path), line, col, scroll: Scroll::origin() }
}

fn matched(body: &str, at: usize) -> (Tabs, JumpListState) {
    let (mut tabs, edits) = seed("file.rs", body);
    set_cursor(&mut tabs, 0, at);
    let mut jumps = JumpListState::new();
    match_bracket(&mut tabs, &edits, &mut jumps);
    (tabs, jumps)
}

#[test]
fn match_bracket_jumps_from_open_to_close() {
    assert_eq!(col(&matched("a { b } c", 2).0), 6);
}

#[test]
fn match_bracket_jumps_from_close_to_open() {
    assert_eq!(col(&matched("a { b } c", 6).0), 2);
}

#[test]
fn match_bracket_considers_char_before_cursor() {
    assert_eq!(col(&matched("a { b }", 7).0), 2);
}

#[test]
fn match_bracket_noop_when_no_bracket() {
    let (tabs, jumps) = matched("no brackets", 3);
    assert_eq!(col(&tabs), 3);
    assert!(jumps.entries.is_empty());
}

#[test]
fn match_bracket_records_pre_jump_position() {
    let (_, jumps) = matched("{abc}", 0);
    assert_eq!(jumps.entries.len(), 1);
    assert_eq!(jumps.entries[0].line, 0);
    assert_eq!(jumps.entries[0].col, 0);
}

#[test]
fn matching_again_leads_back() {
    let (tabs, _) = matched("({[x]})", 0);
    assert_eq!(col(&tabs), 6);
    assert_eq!(col(&matched("({[x]})", 6).0), 0);
}

#[test]
fn jump_back_noop_on_empty_list() {
    let (mut tabs, edits) = seed("file.rs", "hello");
    jump_back(&mut tabs, &edits, &mut JumpListState::new());
    assert_eq!(col(&tabs), 0);
}

#[test]
fn jump_back_from_head_records_current_and_returns() {
    let (mut tabs, edits) = seed("file.rs", "aaaaaaaaaa");
    let mut jumps = JumpListState::new();
    set_cursor(&mut tabs, 0, 2);
    jumps.record(position("file.rs", 0, 2));
    set_cursor(&mut tabs, 0, 9);
    jump_back(&mut tabs, &edits, &mut jumps);
    assert_eq!(col(&tabs), 2);
    assert!(jumps.can_forward());
}

#[test]
fn jump_back_forward_round_trip() {
    let (mut tabs, edits) = seed("file.rs", "aaaaaaaaaa");
    let mut jumps = JumpListState::new();
    jumps.record(position("file.rs", 0, 3));
    set_cursor(&mut tabs, 0, 8);
    jump_back(&mut tabs, &edits, &mut jumps);
    assert_eq!(col(&tabs), 3);
    jump_forward(&mut tabs, &edits, &mut jumps);
    assert_eq!(col(&tabs), 8);
}

#[test]
fn jump_to_closed_tab_is_silent_noop() {
    let (mut tabs, edits) = seed("file.rs", "hello");
    let mut jumps = JumpListState::new();
    jumps.record(position("other.rs", 0, 0));
    set_cursor(&mut tabs, 0, 4);
    jump_back(&mut tabs, &edits, &mut jumps);
    assert_eq!(col(&tabs), 4);
}

#[test]
fn tab_cycle_records_outgoing_position() {
    let mut tabs = Tabs::new();
    tabs.push(Tab::fresh(TabId(1), &CanonPath::new("a"), false, None));
    tabs.push(Tab::fresh(TabId(2), &CanonPath::new("b"), false, None));
    tabs.active = Some(TabId(1));
    set_cursor(&mut tabs, 3, 5);
    let mut jumps = JumpListState::new();
    cycle_active(&mut tabs, &mut jumps, 1);
    assert_eq!(jumps.entries.len(), 1);
    assert_eq!(jumps.entries[0].line, 3);
    assert_eq!(jumps.entries[0].col, 5);
}

fn pos(path: &str, row: usize, col: usize) -> Pos {
    Pos { path: CanonPath::new(path), row, col, category: IssueCategory::Unstaged }
}

fn place(path: &str, row: usize, col: usize) -> Option<(CanonPath, usize, usize)> {
    Some((CanonPath::new(path), row, col))
}

#[test]
fn pick_target_no_cursor_picks_first() {
    let ps = vec![pos("/a", 1, 0), pos("/a", 5, 0), pos("/b", 0, 0)];
    assert_eq!(pick_target_index(&ps, None, true), 0);
    assert_eq!(pick_target_index(&ps, None, false), 0);
}

#[test]
fn pick_target_forward_picks_next_after_cursor() {
    let ps = vec![pos("/a", 1, 0), pos("/a", 5, 0), pos("/a", 9, 0)];
    assert_eq!(pick_target_index(&ps, place("/a", 5, 0), true), 2);
}

#[test]
fn pick_target_forward_wraps_around() {
    let ps = vec![pos("/a", 1, 0), pos("/a", 5, 0)];
    assert_eq!(pick_target_index(&ps, place("/a", 9, 0), true), 0);
}

#[test]
fn pick_target_backward_picks_prev_before_cursor() {
    let ps = vec![pos("/a", 1, 0), pos("/a", 5, 0), pos("/a", 9, 0)];
    assert_eq!(pick_target_index(&ps, place("/a", 5, 0), false), 0);
}

#[test]
fn pick_target_backward_wraps_around() {
    let ps = vec![pos("/a", 1, 0), pos("/a", 5, 0)];
    assert_eq!(pick_target_index(&ps, place("/a", 0, 0), false), 1);
}

#[test]
fn pick_target_crosses_files() {
    let ps = vec![pos("/a", 5, 0), pos("/b", 1, 0)];
    assert_eq!(pick_target_index(&ps, place("/a", 5, 0), true), 1);
}

fn diag(severity: DiagnosticSeverity, line: usize, col: usize) -> Diagnostic {
    Diagnostic {
        start_line: line,
        start_col: col,
        end_line: line,
        end_col: col + 1,
        severity,
        message: String::new(),
        source: None,
        code: None,
    }
}

fn diagnosed(path: &str, diagnostics: Vec<Diagnostic>) -> DiagnosticsStates {
    let mut d = DiagnosticsStates::new();
    d.by_path.insert(path.to_string(), BufferDiagnostics { hash: 1, diagnostics });
    d
}

#[test]
fn errors_take_priority_over_warnings() {
    let (tabs, edits) = seed("/p/a.rs", "aaaa\nbbbb\ncccc\ndddd\neeee\n");
    let diags = diagnosed(
        "/p/a.rs",
        vec![diag(DiagnosticSeverity::Warning, 1, 0), diag(DiagnosticSeverity::Error, 3, 0)],
    );
    let out = compute_navigation(&tabs, &edits, &diags, &GitState::new(), true).expect("nav");
    assert_eq!(out.category, IssueCategory::LspError);
    assert_eq!(out.target_row, 3);
    assert_eq!(out.total, 1);
}

#[test]
fn falls_through_to_warnings_when_no_errors() {
    let (tabs, edits) = seed("/p/a.rs", "aaaa\nbbbb\ncccc\n");
    let diags = diagnosed("/p/a.rs", vec![diag(DiagnosticSeverity::Warning, 1, 0)]);
    let out = compute_navigation(&tabs, &edits, &diags, &GitState::new(), true).unwrap();
    assert_eq!(out.category, IssueCategory::LspWarning);
    assert_eq!(out.target_row, 1);
}

#[test]
fn falls_through_to_git_when_no_diagnostics() {
    let (tabs, edits) = seed("/p/a.rs", "aaaa\nbbbb\ncccc\n");
    let mut git = GitState::new();
    git.file_statuses.insert("/p/a.rs".to_string(), vec![IssueCategory::Unstaged]);
    let rows = LineStatus { category: IssueCategory::Unstaged, start: 2, end: 3 };
    git.line_statuses.insert("/p/a.rs".to_string(), vec![rows]);
    let out = compute_navigation(&tabs, &edits, &DiagnosticsStates::new(), &git, true).unwrap();
    assert_eq!(out.category, IssueCategory::Unstaged);
    assert_eq!(out.target_row, 2);
}

#[test]
fn compute_returns_none_when_empty() {
    let (tabs, edits) = seed("/p/a.rs", "abc\n");
    let (d, g) = (DiagnosticsStates::new(), GitState::new());
    assert!(compute_navigation(&tabs, &edits, &d, &g, true).is_none());
    assert!(compute_navigation(&tabs, &edits, &d, &g, false).is_none());
}

struct Walk {
    tabs: Tabs,
    edits: BufferEdits,
    diags: DiagnosticsStates,
    jumps: JumpListState,
    alerts: AlertState,
    term: Terminal,
}

fn walk(path: &str, body: &str, diags: DiagnosticsStates) -> Walk {
    let (tabs, edits) = seed(path, body);
    Walk {
        tabs,
        edits,
        diags,
        jumps: JumpListState::new(),
        alerts: AlertState::new(),
        term: Terminal { dims: Some(Dims { cols: 80, rows: 24 }), side_cols: 0 },
    }
}

impl Walk {
    fn go(&mut self, forward: bool) {
        let f = if forward { next_issue_active } else { prev_issue_active };
        f(
            &mut self.tabs,
            &self.edits,
            &self.diags,
            &GitState::new(),
            &mut self.jumps,
            &mut self.alerts,
            &self.term,
            false,
            0,
        );
    }
}

#[test]
fn next_issue_moves_cursor_and_records_jump_and_alert() {
    let diags = diagnosed("/p/a.rs", vec![diag(DiagnosticSeverity::Error, 3, 0)]);
    let mut w = walk("/p/a.rs", "aaaa\nbbbb\ncccc\ndddd\neeee\n", diags);
    w.go(true);
    assert_eq!(w.tabs.at(0).cursor.line, 3);
    assert_eq!(w.tabs.at(0).cursor.col, 0);
    assert_eq!(w.jumps.entries.len(), 1);
    assert!(w.alerts.info.expect("message").text.contains("Jumped to Error 1/1"));
}

#[test]
fn next_issue_wraps_within_level() {
    let diags = diagnosed(
        "/p/a.rs",
        vec![diag(DiagnosticSeverity::Error, 1, 0), diag(DiagnosticSeverity::Error, 3, 0)],
    );
    let mut w = walk("/p/a.rs", "aaaa\nbbbb\ncccc\ndddd\neeee\n", diags);
    set_cursor(&mut w.tabs, 4, 0);
    w.go(true);
    assert_eq!(w.tabs.at(0).cursor.line, 1);
    w.go(false);
    assert_eq!(w.tabs.at(0).cursor.line, 3);
}

#[test]
fn next_issue_opens_unopened_target_with_pending_cursor() {
    let diags = diagnosed("/p/other.rs", vec![diag(DiagnosticSeverity::Error, 7, 2)]);
    let mut w = walk("/p/a.rs", "abc\n", diags);
    w.term = Terminal { dims: None, side_cols: 0 };
    w.go(true);
    let i = w.tabs.find_path("/p/other.rs").expect("opened");
    let t = w.tabs.at(i);
    assert_eq!(w.tabs.active, Some(t.id));
    assert_eq!(t.pending_cursor, Some(cur(7, 2)));
    assert_eq!(w.jumps.entries.len(), 1);
    assert!(w.alerts.info.is_some());
}

#[test]
fn without_an_active_tab_nothing_is_visited() {
    let diags = diagnosed("/p/a.rs", vec![diag(DiagnosticSeverity::Error, 3, 0)]);
    let mut w = walk("/p/a.rs", "aaaa\nbbbb\ncccc\ndddd\n", diags);
    w.jumps.record(position("/p/a.rs", 1, 0));
    w.jumps.record(position("/p/a.rs", 2, 0));
    w.jumps.index = 0;
    w.tabs.active = None;
    w.go(true);
    w.go(false);
    jump_forward(&mut w.tabs, &w.edits, &mut w.jumps);
    jump_back(&mut w.tabs, &w.edits, &mut w.jumps);
    assert_eq!(w.tabs.active, None);
    assert_eq!(w.tabs.at(0).cursor, cur(0, 0));
    assert_eq!((w.jumps.entries.len(), w.jumps.index), (2, 0));
    assert!(w.alerts.info.is_none());
}
