use led_runtime::browser::FsTree;
use led_runtime::buffers::BufferEdits;
use led_runtime::code_actions;
use led_runtime::columns::{Cursor, Scroll};
use led_runtime::command::{Command, DispatchOutcome};
use led_runtime::completions;
use led_runtime::completions::{
    refilter, refresh_completion_filter, Completion, CompletionSession, CompletionsPending,
    CompletionsState,
};
use led_runtime::edits::EditedBuffer;
use led_runtime::find_file;
use led_runtime::find_file::{abbreviate_home, expand_path, FindFileEntry, FindFileState};
use led_runtime::input::{next_char_boundary, prev_char_boundary, TextInput};
use led_runtime::isearch;
use led_runtime::isearch::{find_all_matches, in_buffer_search, IsearchMatch, IsearchState};
use led_runtime::jumps::JumpListState;
use led_runtime::lsp_state::{CodeActionSummary, LspExtrasState, LspPending, RenameState};
use led_runtime::paths::CanonPath;
use led_runtime::rename;
use led_runtime::tabs::{Tab, TabId, Tabs};
use ropey::Rope;

fn canon(s: &str) -> CanonPath {
    CanonPath::new(s)
}

fn cur(line: usize, col: usize) -> Cursor {
    Cursor { line, col, preferred_col: col }
}

fn seed(path: &str, body: &str, cursor: Cursor) -> (Tabs, BufferEdits) {
    let mut tabs = Tabs::new();
    let mut tab = Tab::fresh(TabId(1), &canon(path), false, None);
    tab.cursor = cursor;
    tabs.push(tab);
    tabs.active = Some(TabId(1));
    let mut edits = BufferEdits::new();
    edits.put(path.to_string(), EditedBuffer::fresh(Rope::from_str(body)));
    (tabs, edits)
}

fn with_tab(tabs: &mut Tabs, f: impl FnOnce(&mut Tab)) {
    let mut t = tabs.at(0).copy();
    f(&mut t);
    tabs.set(0, t);
}

// Code actions

fn action(title: &str, id: &str) -> CodeActionSummary {
    CodeActionSummary {
        title: title.to_string(),
        kind: None,
        resolve_needed: false,
        action_id: id.to_string(),
    }
}

fn asked(cursor: Cursor, mark: Option<Cursor>) -> (usize, usize, usize, usize) {
    let (mut tabs, edits) = seed("a.rs", "a\nb\nc\n", cursor);
    with_tab(&mut tabs, |t| t.mark = mark);
    let mut pending = LspPending::new();
    code_actions::activate(&LspExtrasState::new(), &mut pending, &tabs, &edits);
    assert_eq!(pending.pending_code_action.len(), 1);
    let r = &pending.pending_code_action[0];
    (r.start_line, r.start_col, r.end_line, r.end_col)
}

#[test]
fn activate_no_mark_uses_cursor_collapsed_range() {
    assert_eq!(asked(cur(1, 2), None), (1, 2, 1, 2));
}

#[test]
fn activate_with_mark_uses_sorted_range() {
    assert_eq!(asked(cur(0, 0), Some(cur(2, 1))), (0, 0, 2, 1));
}

fn picker(seq: u64, items: Vec<CodeActionSummary>) -> LspExtrasState {
    let mut lsp = LspExtrasState::new();
    code_actions::install_picker(&mut lsp, canon("a.rs"), seq, items);
    lsp
}

#[test]
fn install_picker_sets_state() {
    let lsp = picker(3, vec![action("one", "id1"), action("two", "id2")]);
    let p = lsp.code_actions.as_ref().expect("picker installed");
    assert_eq!(p.items.len(), 2);
    assert_eq!(p.selected, 0);
    assert_eq!(p.seq, 3);
}

#[test]
fn install_picker_empty_items_is_noop() {
    assert!(picker(1, vec![]).code_actions.is_none());
}

#[test]
fn cursor_down_advances_selection_clamped_at_end() {
    let mut lsp = picker(1, vec![action("a", "a"), action("b", "b")]);
    let mut pending = LspPending::new();
    for _ in 0..2 {
        code_actions::run_overlay_command(Command::CursorDown, &mut lsp, &mut pending);
        assert_eq!(lsp.code_actions.as_ref().unwrap().selected, 1);
    }
}

#[test]
fn enter_commits_queues_select_and_dismisses() {
    let mut lsp = picker(1, vec![action("a", "id-a"), action("b", "id-b")]);
    let mut pending = LspPending::new();
    code_actions::run_overlay_command(Command::CursorDown, &mut lsp, &mut pending);
    code_actions::run_overlay_command(Command::InsertNewline, &mut lsp, &mut pending);
    assert!(lsp.code_actions.is_none());
    assert_eq!(pending.pending_code_action_select.len(), 1);
    assert_eq!(pending.pending_code_action_select[0].action.action_id, "id-b");
}

#[test]
fn abort_dismisses_without_queuing_commit() {
    let mut lsp = picker(1, vec![action("a", "a")]);
    let mut pending = LspPending::new();
    code_actions::run_overlay_command(Command::Abort, &mut lsp, &mut pending);
    assert!(lsp.code_actions.is_none());
    assert!(pending.pending_code_action_select.is_empty());
}

// Completions

fn item(label: &str, insert: Option<&str>) -> Completion {
    Completion {
        label: label.to_string(),
        detail: None,
        sort_text: None,
        insert_text: insert.map(|s| s.to_string()),
        text_edit: None,
        kind: None,
        resolve_needed: false,
        resolve_data: None,
    }
}

struct Completing {
    state: CompletionsState,
    pending: CompletionsPending,
    tabs: Tabs,
    edits: BufferEdits,
}

fn completing(body: &str, at: Cursor, items: Vec<Completion>) -> Completing {
    let (tabs, edits) = seed("test.rs", body, at);
    let filtered: Vec<usize> = (0..items.len()).collect();
    let session = CompletionSession {
        tab: TabId(1),
        path: canon("test.rs"),
        seq: 1,
        prefix_line: 0,
        prefix_start_col: 0,
        items,
        filtered,
        selected: 0,
        scroll: 0,
    };
    Completing {
        state: CompletionsState { session: Some(session) },
        pending: CompletionsPending::new(),
        tabs,
        edits,
    }
}

impl Completing {
    fn run(&mut self, cmd: Command) -> Option<DispatchOutcome> {
        completions::run_overlay_command(
            cmd,
            &mut self.state,
            &mut self.pending,
            &mut self.tabs,
            &mut self.edits,
        )
    }

    fn selected(&self) -> usize {
        self.state.session.as_ref().unwrap().selected
    }
}

#[test]
fn cursor_down_advances_selected_and_stops_at_last() {
    let items = vec![item("pr", None), item("pub", None), item("pop", None)];
    let mut c = completing("p", Cursor::origin(), items);
    assert_eq!(c.run(Command::CursorDown), Some(DispatchOutcome::Continue));
    assert_eq!(c.selected(), 1);
    c.run(Command::CursorDown);
    assert_eq!(c.selected(), 2);
    c.run(Command::CursorDown);
    assert_eq!(c.selected(), 2);
}

#[test]
fn abort_dismisses_the_session() {
    let mut c = completing("p", Cursor::origin(), vec![item("pr", None)]);
    assert_eq!(c.run(Command::Abort), Some(DispatchOutcome::Continue));
    assert!(c.state.session.is_none());
}

#[test]
fn commit_replaces_prefix_and_dismisses() {
    let mut c = completing("pr", cur(0, 2), vec![item("println!", Some("println!"))]);
    assert_eq!(c.run(Command::InsertNewline), Some(DispatchOutcome::Continue));
    assert!(c.state.session.is_none());
    assert_eq!(c.edits.get("test.rs").unwrap().rope.to_string(), "println!");
    assert_eq!(c.tabs.at(0).cursor.col, 8);
}

#[test]
fn no_session_passes_through() {
    let mut c = completing("p", Cursor::origin(), vec![]);
    c.state = CompletionsState::new();
    assert_eq!(c.run(Command::CursorUp), None);
}

#[test]
fn items_that_fit_the_prefix_stay() {
    let items = vec![item("Print", None), item("apply", None), item("prune", None)];
    assert_eq!(refilter(&items, "pR"), vec![0, 2]);
    assert_eq!(refilter(&items, ""), vec![0, 1, 2]);
}

// Rename

fn renaming(body: &str, col: usize) -> LspExtrasState {
    let (tabs, edits) = seed("main.rs", body, cur(0, col));
    let mut lsp = LspExtrasState::new();
    rename::activate(&mut lsp, &tabs, &edits);
    lsp
}

fn open_rename(line: usize, col: usize) -> (LspExtrasState, LspPending) {
    let mut lsp = LspExtrasState::new();
    lsp.rename = Some(RenameState::open(canon("a.rs"), line, col, "foo".to_string()));
    (lsp, LspPending::new())
}

#[test]
fn activate_seeds_word_under_cursor() {
    let state = renaming("let foo = 1;", 5).rename.expect("overlay opened");
    assert_eq!(state.seed_word, "foo");
    assert_eq!(state.input.text(), "foo");
    assert_eq!(state.anchor_col, 4);
}

#[test]
fn activate_picks_word_before_cursor_when_at_end() {
    let state = renaming("hello world", 5).rename.expect("overlay opened");
    assert_eq!(state.seed_word, "hello");
    assert_eq!(state.anchor_col, 0);
}

#[test]
fn activate_noop_on_whitespace() {
    assert!(renaming("   ", 1).rename.is_none());
}

#[test]
fn white_space_between_words_stands_for_the_one_before() {
    let state = renaming("foo   bar", 5).rename.expect("overlay opened");
    assert_eq!(state.seed_word, "foo");
    assert_eq!(state.anchor_col, 0);
    assert!(renaming("   bar", 1).rename.is_none());
    assert!(renaming("foo +  bar", 6).rename.is_none());
}

#[test]
fn activate_noop_when_overlay_already_open() {
    let (tabs, edits) = seed("main.rs", "foo bar", cur(0, 1));
    let mut lsp = LspExtrasState::new();
    lsp.rename = Some(RenameState::open(canon("main.rs"), 0, 0, "existing".to_string()));
    rename::activate(&mut lsp, &tabs, &edits);
    assert_eq!(lsp.rename.as_ref().unwrap().seed_word, "existing");
}

#[test]
fn insert_char_appends_to_input() {
    let (mut lsp, mut pending) = open_rename(0, 0);
    let out = rename::run_overlay_command(Command::InsertChar('x'), &mut lsp, &mut pending);
    assert_eq!(out, Some(DispatchOutcome::Continue));
    assert_eq!(lsp.rename.as_ref().unwrap().input.text(), "foox");
}

#[test]
fn delete_back_trims_input() {
    let (mut lsp, mut pending) = open_rename(0, 0);
    rename::run_overlay_command(Command::DeleteBack, &mut lsp, &mut pending);
    assert_eq!(lsp.rename.as_ref().unwrap().input.text(), "fo");
}

#[test]
fn enter_commits_queues_rename_and_dismisses() {
    let (mut lsp, mut pending) = open_rename(2, 4);
    rename::run_overlay_command(Command::InsertChar('s'), &mut lsp, &mut pending);
    rename::run_overlay_command(Command::InsertNewline, &mut lsp, &mut pending);
    assert!(lsp.rename.is_none());
    assert_eq!(pending.pending_rename.len(), 1);
    let req = &pending.pending_rename[0];
    assert_eq!(req.new_name, "foos");
    assert_eq!(req.line, 2);
    assert_eq!(req.col, 4);
    assert_eq!(pending.latest_rename_seq, Some(req.seq));
}

#[test]
fn enter_with_unchanged_input_dismisses_without_queuing() {
    let (mut lsp, mut pending) = open_rename(0, 0);
    rename::run_overlay_command(Command::InsertNewline, &mut lsp, &mut pending);
    assert!(lsp.rename.is_none());
    assert!(pending.pending_rename.is_empty());
}

#[test]
fn abort_dismisses_without_queuing() {
    let (mut lsp, mut pending) = open_rename(0, 0);
    rename::run_overlay_command(Command::InsertChar('y'), &mut lsp, &mut pending);
    rename::run_overlay_command(Command::Abort, &mut lsp, &mut pending);
    assert!(lsp.rename.is_none());
    assert!(pending.pending_rename.is_empty());
}

#[test]
fn rename_quit_passes_through() {
    let (mut lsp, mut pending) = open_rename(0, 0);
    assert_eq!(rename::run_overlay_command(Command::Quit, &mut lsp, &mut pending), None);
}

// Incremental search

struct Search {
    isearch: Option<IsearchState>,
    tabs: Tabs,
    edits: BufferEdits,
    jumps: JumpListState,
}

fn search(body: &str, at: Cursor) -> Search {
    let (tabs, edits) = seed("/tmp/buf.txt", body, at);
    Search { isearch: None, tabs, edits, jumps: JumpListState::new() }
}

impl Search {
    fn open(mut self) -> Search {
        in_buffer_search(&mut self.isearch, &self.tabs, &self.edits);
        self
    }

    fn run(&mut self, cmd: Command) {
        isearch::run_overlay_command(
            cmd,
            &mut self.isearch,
            &mut self.tabs,
            &self.edits,
            &mut self.jumps,
        );
    }

    fn type_in(&mut self, s: &str) {
        for c in s.chars() {
            self.run(Command::InsertChar(c));
        }
    }

    fn state(&self) -> &IsearchState {
        self.isearch.as_ref().unwrap()
    }

    fn cursor(&self) -> Cursor {
        self.tabs.at(0).cursor
    }
}

#[test]
fn in_buffer_search_activates_and_captures_origin() {
    let s = search("hello\nworld\n", cur(2, 4)).open();
    assert_eq!(s.state().origin_cursor.line, 2);
    assert_eq!(s.state().origin_cursor.col, 4);
    assert_eq!(s.state().query.text(), "");
}

#[test]
fn in_buffer_search_is_noop_without_active_tab() {
    let mut isearch = None;
    in_buffer_search(&mut isearch, &Tabs::new(), &BufferEdits::new());
    assert!(isearch.is_none());
}

#[test]
fn in_buffer_search_is_noop_when_buffer_not_materialized() {
    let mut s = search("", cur(2, 4));
    s.edits = BufferEdits::new();
    assert!(s.open().isearch.is_none());
}

#[test]
fn find_all_matches_case_insensitive() {
    let rope = Rope::from_str("Foo fooBAR quux Foo\n");
    let found = find_all_matches(&rope, "foo");
    let expected = [(0, 3), (4, 7), (16, 19)];
    assert_eq!(found, expected.map(|(char_start, char_end)| IsearchMatch { char_start, char_end }));
}

#[test]
fn find_all_matches_empty_query_is_empty() {
    assert!(find_all_matches(&Rope::from_str("hello\n"), "").is_empty());
}

#[test]
fn typing_advances_cursor_to_first_forward_match() {
    let body = "alpha beta gamma\ndelta echo foxtrot\nalpha zulu yankee\n";
    let mut s = search(body, Cursor::origin()).open();
    s.type_in("alpha");
    assert_eq!(s.state().query.text(), "alpha");
    assert_eq!(s.state().matches.len(), 2);
    assert_eq!(s.state().match_idx, Some(0));
    assert!(!s.state().failed);
    assert_eq!(s.cursor().line, 0);
    assert_eq!(s.cursor().col, 0);
}

#[test]
fn no_forward_match_sets_failed() {
    let mut s = search("alpha\nbeta\n", cur(1, 0)).open();
    s.run(Command::InsertChar('a'));
    assert!(!s.state().failed);
    assert!(s.state().match_idx.is_some());
    s.run(Command::InsertChar('q'));
    assert!(s.state().failed);
    assert!(s.state().matches.is_empty());
}

#[test]
fn backspace_to_empty_restores_origin() {
    let mut s = search("alpha beta\n", cur(0, 0)).open();
    s.run(Command::InsertChar('b'));
    assert_eq!(s.cursor().col, 6);
    s.run(Command::DeleteBack);
    assert_eq!(s.cursor(), cur(0, 0));
}

#[test]
fn enter_accepts_and_pushes_jump_record_when_cursor_moved() {
    let mut s = search("alpha beta\n", Cursor::origin()).open();
    s.run(Command::InsertChar('b'));
    s.run(Command::InsertNewline);
    assert!(s.isearch.is_none());
    assert_eq!(s.cursor().col, 6);
    assert!(s.jumps.can_back());
}

#[test]
fn esc_restores_origin_cursor_and_scroll() {
    let mut s = search("alpha beta\n", cur(0, 3)).open();
    s.run(Command::InsertChar('b'));
    assert_ne!(s.cursor(), cur(0, 3));
    s.run(Command::Abort);
    assert!(s.isearch.is_none());
    assert_eq!(s.cursor(), cur(0, 3));
    assert_eq!(s.tabs.at(0).scroll, Scroll { top: 0, top_sub_line: 0 });
}

#[test]
fn ctrl_s_advances_to_next_match() {
    let mut s = search("alpha\nbeta\nalpha\n", Cursor::origin()).open();
    s.type_in("alpha");
    assert_eq!(s.state().match_idx, Some(0));
    s.run(Command::InBufferSearch);
    assert_eq!(s.state().match_idx, Some(1));
    assert_eq!(s.cursor().line, 2);
}

#[test]
fn ctrl_s_past_last_sets_failed_then_wraps() {
    let mut s = search("alpha\nalpha\n", Cursor::origin()).open();
    s.type_in("alpha");
    s.run(Command::InBufferSearch);
    assert_eq!(s.state().match_idx, Some(1));
    s.run(Command::InBufferSearch);
    assert!(s.state().failed);
    s.run(Command::InBufferSearch);
    assert_eq!(s.state().match_idx, Some(0));
    assert!(!s.state().failed);
    assert_eq!(s.cursor().line, 0);
}

#[test]
fn ctrl_s_on_empty_query_recalls_last_search() {
    let mut s = search("alpha beta gamma\n", Cursor::origin());
    with_tab(&mut s.tabs, |t| t.last_search = Some("beta".to_string()));
    let mut s = s.open();
    s.run(Command::InBufferSearch);
    assert_eq!(s.state().query.text(), "beta");
    assert_eq!(s.state().match_idx, Some(0));
    assert_eq!(s.cursor().col, 6);
}

#[test]
fn accept_stashes_query_into_tab_last_search() {
    let mut s = search("alpha\n", Cursor::origin()).open();
    s.type_in("alpha");
    s.run(Command::InsertNewline);
    assert_eq!(s.tabs.at(0).last_search.as_deref(), Some("alpha"));
}

#[test]
fn isearch_deactivate_clears_state() {
    let mut s = search("x", cur(2, 4)).open();
    assert!(s.isearch.is_some());
    isearch::deactivate(&mut s.isearch, &mut s.tabs);
    assert!(s.isearch.is_none());
}

// Finding files

fn tabs_at(path: &str) -> Tabs {
    let mut t = Tabs::new();
    t.push(Tab::fresh(TabId(1), &canon(path), false, None));
    t.active = Some(TabId(1));
    t
}

#[test]
fn activate_open_uses_parent_dir_of_active_buffer() {
    let mut ff = None;
    find_file::activate_open(&mut ff, &tabs_at("/tmp/xyz/a.txt"), &FsTree::new());
    let s = ff.expect("activated");
    assert_eq!(s.input.text(), "/tmp/xyz/");
    assert_eq!(s.input.cursor(), s.input.text().len());
}

#[test]
fn activate_save_as_uses_full_active_path() {
    let mut ff = None;
    find_file::activate_save_as(&mut ff, &tabs_at("/tmp/xyz/a.txt"), &FsTree::new());
    assert_eq!(ff.expect("activated").input.text(), "/tmp/xyz/a.txt");
}

#[test]
fn activate_open_no_active_falls_back_to_fs_root() {
    let mut fs = FsTree::new();
    fs.root = Some(canon("/workspace"));
    let mut ff = None;
    find_file::activate_open(&mut ff, &Tabs::new(), &fs);
    assert_eq!(ff.expect("activated").input.text(), "/workspace/");
}

#[test]
fn activate_is_no_op_when_already_active() {
    let mut ff = Some(FindFileState::open("preserved/"));
    find_file::activate_open(&mut ff, &tabs_at("/tmp/a.txt"), &FsTree::new());
    assert_eq!(ff.as_ref().unwrap().input.text(), "preserved/");
}

#[test]
fn find_file_deactivate_clears_state() {
    let mut ff = Some(FindFileState::open("x/"));
    find_file::deactivate(&mut ff);
    assert!(ff.is_none());
}

struct Finding {
    ff: Option<FindFileState>,
    tabs: Tabs,
}

fn overlay(input: &str, cursor: usize) -> Finding {
    let mut s = FindFileState::open(input);
    s.input = TextInput { before: input[..cursor].to_string(), after: input[cursor..].to_string() };
    s.pending_find_file_list.clear();
    Finding { ff: Some(s), tabs: Tabs::new() }
}

impl Finding {
    fn run(&mut self, cmd: Command) -> Option<DispatchOutcome> {
        find_file::run_overlay_command(cmd, &mut self.ff, &mut self.tabs, &FsTree::new())
    }

    fn state(&self) -> &FindFileState {
        self.ff.as_ref().unwrap()
    }

    fn input(&self) -> String {
        self.state().input.text()
    }

    fn cursor(&self) -> usize {
        self.state().input.cursor()
    }
}

#[test]
fn new_completions_are_followed() {
    let mut f = overlay("/tmp/a", 6);
    let mut ff = f.ff.take().unwrap();
    ff.base_input = "/tmp/a".to_string();
    ff.completions = vec![FindFileEntry {
        name: "ab.txt".to_string(),
        full: canon("/tmp/ab.txt"),
        is_dir: false,
    }];
    find_file::auto_advance_arrow_follow(&mut ff, &mut f.tabs);
    assert_eq!(ff.selected, None);
    ff.arrow_follow = true;
    find_file::auto_advance_arrow_follow(&mut ff, &mut f.tabs);
    assert_eq!(ff.selected, Some(0));
    assert_eq!(ff.input.text(), "/tmp/ab.txt");
    assert_eq!(f.tabs.len(), 1);
}

#[test]
fn insert_char_extends_input_and_rearms_pending() {
    let mut f = overlay("/tmp/", 5);
    f.run(Command::InsertChar('a'));
    assert_eq!(f.input(), "/tmp/a");
    assert_eq!(f.cursor(), 6);
    assert_eq!(f.state().pending_find_file_list.len(), 1);
}

#[test]
fn delete_back_at_end_of_input() {
    let mut f = overlay("/tmp/a", 6);
    f.run(Command::DeleteBack);
    assert_eq!(f.input(), "/tmp/");
    assert_eq!(f.cursor(), 5);
}

#[test]
fn delete_back_at_start_is_noop() {
    let mut f = overlay("/tmp/", 0);
    f.run(Command::DeleteBack);
    assert_eq!(f.input(), "/tmp/");
    assert!(f.state().pending_find_file_list.is_empty());
}

#[test]
fn delete_forward_at_middle() {
    let mut f = overlay("/tmp/ab", 5);
    f.run(Command::DeleteForward);
    assert_eq!(f.input(), "/tmp/b");
}

#[test]
fn cursor_left_and_right_walk_char_boundaries() {
    let mut f = overlay("/ä/", 3);
    f.run(Command::CursorLeft);
    assert_eq!(f.cursor(), 1);
    f.run(Command::CursorRight);
    assert_eq!(f.cursor(), 3);
}

#[test]
fn char_boundaries_are_byte_positions() {
    assert_eq!(prev_char_boundary("/ä/", 3), 1);
    assert_eq!(prev_char_boundary("/ä/", 0), 0);
    assert_eq!(next_char_boundary("/ä/", 1), 3);
    assert_eq!(next_char_boundary("/ä/", 4), 4);
}

#[test]
fn line_start_and_end() {
    let mut f = overlay("/tmp/", 2);
    f.run(Command::CursorLineStart);
    assert_eq!(f.cursor(), 0);
    f.run(Command::CursorLineEnd);
    assert_eq!(f.cursor(), 5);
}

#[test]
fn kill_line_truncates_at_cursor() {
    let mut f = overlay("/tmp/abc", 5);
    f.run(Command::KillLine);
    assert_eq!(f.input(), "/tmp/");
    assert_eq!(f.state().pending_find_file_list.len(), 1);
}

#[test]
fn abort_closes_the_overlay() {
    let mut f = overlay("/tmp/", 5);
    assert_eq!(f.run(Command::Abort), Some(DispatchOutcome::Continue));
    assert!(f.ff.is_none());
}

#[test]
fn find_file_quit_passes_through() {
    let mut f = overlay("/tmp/", 5);
    assert!(f.run(Command::Quit).is_none());
    assert!(f.ff.is_some());
}

#[test]
fn inactive_overlay_passes_everything_through() {
    let mut f = Finding { ff: None, tabs: Tabs::new() };
    assert!(f.run(Command::InsertChar('a')).is_none());
}

#[test]
fn enter_on_non_trailing_path_opens_and_deactivates() {
    let mut f = overlay("/tmp/newfile.txt", 16);
    f.run(Command::InsertNewline);
    assert!(f.ff.is_none());
    assert_eq!(f.tabs.len(), 1);
    assert_eq!(f.tabs.active, Some(f.tabs.at(0).id));
    assert!(!f.tabs.at(0).preview);
}

#[test]
fn enter_on_trailing_slash_is_noop() {
    let mut f = overlay("/tmp/", 5);
    f.run(Command::InsertNewline);
    assert!(f.ff.is_some());
    assert_eq!(f.tabs.len(), 0);
}

#[test]
fn enter_on_empty_input_is_noop() {
    let mut f = overlay("", 0);
    f.run(Command::InsertNewline);
    assert!(f.ff.is_some());
    assert_eq!(f.tabs.len(), 0);
}

#[test]
fn enter_focuses_existing_tab_when_path_matches() {
    let mut f = overlay("/tmp/existing.txt", 17);
    f.tabs.push(Tab::fresh(TabId(42), &canon("/tmp/existing.txt"), true, None));
    f.run(Command::InsertNewline);
    assert_eq!(f.tabs.len(), 1);
    assert_eq!(f.tabs.active, Some(TabId(42)));
    assert!(!f.tabs.at(0).preview);
}

#[test]
fn home_is_abbreviated_and_expanded_again() {
    let home = Some("/home/me".to_string());
    assert_eq!(abbreviate_home("/home/me/x", &home), "~/x");
    assert_eq!(expand_path("~/x", &home), "/home/me/x");
    assert_eq!(abbreviate_home("/etc/x", &home), "/etc/x");
}

#[test]
fn a_list_goes_away_when_its_tab_is_left() {
    for active in [Some(TabId(1)), None, Some(TabId(2))] {
        let mut c = completing("p", cur(0, 1), vec![item("print", None), item("prune", None)]);
        c.tabs.active = active;
        refresh_completion_filter(&c.tabs, &c.edits, &mut c.state);
        assert_eq!(c.state.session.is_some(), active == Some(TabId(1)));
    }
}

#[test]
fn no_name_is_asked_for_while_actions_are_offered() {
    let (tabs, edits) = seed("a.rs", "foo bar", cur(0, 1));
    let mut lsp = picker(1, vec![action("a", "a")]);
    rename::activate(&mut lsp, &tabs, &edits);
    assert!(lsp.rename.is_none());
}
