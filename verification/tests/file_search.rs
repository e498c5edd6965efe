use led_runtime::browser::{BrowserUi, Focus};
use led_runtime::buffers::BufferEdits;
use led_runtime::columns::Cursor;
use led_runtime::edits::EditedBuffer;
use led_runtime::file_search::{activate, deactivate, handle_enter, move_selection};
use led_runtime::hits::{
    preview_scroll_top, tree_row_index_for_hit, FileSearchGroup, FileSearchHit,
    FileSearchSelection, FileSearchState, ReplaceEntry,
};
use led_runtime::paths::CanonPath;
use led_runtime::replace_all::apply_replace_all;
use led_runtime::replace_one::{replace_selected, unreplace_selected};
use led_runtime::tabs::{Tab, TabId, Tabs};
use led_runtime::undo_global::{redo_global, undo_global};
use ropey::Rope;

fn canon(s: &str) -> CanonPath {
    CanonPath::new(s)
}

fn hit(path: &str, line: usize, col: usize, preview: &str, at: (usize, usize)) -> FileSearchHit {
    FileSearchHit {
        path: canon(path),
        line,
        col,
        preview: preview.to_string(),
        match_start: at.0,
        match_end: at.1,
    }
}

fn no_marks(n: usize) -> Vec<Option<ReplaceEntry>> {
    (0..n).map(|_| None).collect()
}

/// A search with hits in one file.
fn state_of(path: &str, hits: Vec<FileSearchHit>) -> FileSearchState {
    let mut s = FileSearchState::new();
    s.hit_replacements = no_marks(hits.len());
    s.results = vec![FileSearchGroup {
        path: canon(path),
        relative: "a.rs".to_string(),
        hits: hits.iter().map(|h| h.copy()).collect(),
    }];
    s.flat_hits = hits;
    s
}

fn replacing(mut s: FileSearchState) -> FileSearchState {
    s.query.set("foo");
    s.replace.set("BAR");
    s.replace_mode = true;
    s
}

fn loaded(files: &[(&str, &str)]) -> BufferEdits {
    let mut e = BufferEdits::new();
    for (path, body) in files {
        e.put(path.to_string(), EditedBuffer::fresh(Rope::from_str(body)));
    }
    e
}

fn text(e: &BufferEdits, path: &str) -> String {
    e.get(path).expect("loaded").rope.to_string()
}

fn side() -> BrowserUi {
    let mut b = BrowserUi::new();
    b.focus = Focus::Side;
    b
}

#[test]
fn activate_opens_overlay_and_moves_focus_to_side() {
    let mut fs = None;
    let mut b = BrowserUi::new();
    assert_eq!(b.focus, Focus::Main);
    activate(&mut fs, &mut b, &Tabs::new(), &BufferEdits::new());
    assert!(fs.is_some());
    assert!(b.visible);
    assert_eq!(b.focus, Focus::Side);
}

#[test]
fn deactivate_clears_and_restores_focus() {
    let mut fs = Some(FileSearchState::new());
    let mut b = side();
    deactivate(&mut fs, &mut b, &mut Tabs::new());
    assert!(fs.is_none());
    assert_eq!(b.focus, Focus::Main);
}

#[test]
fn activate_twice_is_noop_on_the_second_call() {
    let mut fs = None;
    let mut b = BrowserUi::new();
    let mut edits = BufferEdits::new();
    activate(&mut fs, &mut b, &Tabs::new(), &edits);
    fs.as_mut().unwrap().query.set("kept");
    edits.clock = 9;
    activate(&mut fs, &mut b, &Tabs::new(), &edits);
    let s = fs.unwrap();
    assert_eq!(s.query.text(), "kept");
    assert_eq!(s.overlay_open_seq, 0);
    assert_eq!(s.previous_tab, None);
}

#[test]
fn activate_captures_previous_tab() {
    let mut tabs = Tabs::new();
    tabs.push(Tab::fresh(TabId(7), &canon("x"), false, None));
    tabs.active = Some(TabId(7));
    let mut fs = None;
    activate(&mut fs, &mut BrowserUi::new(), &tabs, &BufferEdits::new());
    assert_eq!(fs.unwrap().previous_tab, Some(TabId(7)));
}

fn state_with_hits(n: usize) -> FileSearchState {
    state_of("a.rs", (1..=n).map(|i| hit("a.rs", i, 1, &format!("hit {i}"), (0, 0))).collect())
}

#[test]
fn move_selection_does_not_scroll_up_until_selection_leaves_the_top() {
    let mut s = state_with_hits(6);
    let mut tabs = Tabs::new();
    for _ in 0..6 {
        move_selection(&mut s, &mut tabs, 1, 4);
    }
    assert_eq!(s.selection, FileSearchSelection::Result(5));
    assert_eq!(s.scroll_offset, 5);
    move_selection(&mut s, &mut tabs, -1, 4);
    assert_eq!(s.selection, FileSearchSelection::Result(4));
    assert_eq!(s.scroll_offset, 5);
    move_selection(&mut s, &mut tabs, -1, 4);
    assert_eq!(s.selection, FileSearchSelection::Result(3));
    assert_eq!(s.scroll_offset, 4);
}

#[test]
fn move_selection_scrolls_down_when_selection_leaves_the_bottom() {
    let mut s = state_with_hits(6);
    let mut tabs = Tabs::new();
    for offset in 0..3 {
        move_selection(&mut s, &mut tabs, 1, 4);
        assert_eq!(s.scroll_offset, offset);
    }
}

#[test]
fn enter_on_result_row_commits_promotes_tab_and_closes_overlay() {
    let mut s = state_of("a.rs", vec![hit("a.rs", 3, 7, "    let foo = bar;", (8, 11))]);
    s.selection = FileSearchSelection::Result(0);
    s.previous_tab = Some(TabId(99));
    let mut fs = Some(s);
    let mut tabs = Tabs::new();
    tabs.push(Tab::fresh(TabId(1), &canon("a.rs"), true, None));
    tabs.active = Some(TabId(1));
    let mut b = side();
    handle_enter(&mut fs, &mut b, &mut tabs, 3);
    assert!(fs.is_none());
    assert_eq!(b.focus, Focus::Main);
    assert_eq!(tabs.len(), 1);
    let t = tabs.at(0);
    assert_eq!(t.id, TabId(1));
    assert!(!t.preview);
    assert_eq!(tabs.active, Some(TabId(1)));
    assert_eq!(t.cursor, Cursor { line: 2, col: 6, preferred_col: 6 });
    assert_eq!(t.scroll.top, 1);
}

#[test]
fn enter_on_search_input_previews_first_hit_and_keeps_overlay_open() {
    let mut s = state_of("a.rs", vec![hit("a.rs", 3, 7, "    let foo = bar;", (8, 11))]);
    s.selection = FileSearchSelection::SearchInput;
    let mut fs = Some(s);
    let mut tabs = Tabs::new();
    handle_enter(&mut fs, &mut side(), &mut tabs, 3);
    assert_eq!(fs.expect("open").selection, FileSearchSelection::Result(0));
    assert_eq!(tabs.len(), 1);
    assert!(tabs.at(0).preview);
    assert_eq!(tabs.at(0).cursor.line, 2);
    assert_eq!(tabs.at(0).cursor.col, 0);
}

#[test]
fn apply_replace_all_splits_loaded_and_ondisk_paths() {
    let mut edits = loaded(&[("/p/a.rs", "foo here\nand foo\n"), ("/p/b.rs", "no match\n")]);
    let s = replacing(state_of("/p/a.rs", vec![hit("/p/a.rs", 1, 1, "foo here", (0, 3))]));
    apply_replace_all(&s, &Tabs::new(), &mut edits, &Some(canon("/p")));
    assert_eq!(text(&edits, "/p/a.rs"), "BAR here\nand BAR\n");
    assert_eq!(text(&edits, "/p/b.rs"), "no match\n");
    assert_eq!(edits.pending_replace_in_memory.len(), 1);
    assert_eq!(edits.pending_replace_in_memory[0].path.as_str(), "/p/a.rs");
    assert_eq!(edits.pending_replace_in_memory[0].count, 2);
    assert_eq!(edits.pending_replace_all.len(), 1);
    let cmd = &edits.pending_replace_all[0];
    assert_eq!(cmd.root.as_str(), "/p");
    assert_eq!(cmd.query, "foo");
    assert_eq!(cmd.replacement, "BAR");
    assert!(!cmd.case_sensitive);
    assert!(!cmd.use_regex);
    assert!(cmd.skip_paths.contains(&"/p/a.rs".to_string()));
    assert!(cmd.skip_paths.contains(&"/p/b.rs".to_string()));
}

#[test]
fn apply_replace_all_with_no_workspace_still_rewrites_loaded_buffers() {
    let mut edits = loaded(&[("/tmp/a.rs", "alpha foo\n")]);
    apply_replace_all(&replacing(FileSearchState::new()), &Tabs::new(), &mut edits, &None);
    assert_eq!(text(&edits, "/tmp/a.rs"), "alpha BAR\n");
    assert_eq!(edits.pending_replace_in_memory.len(), 1);
    assert!(edits.pending_replace_all.is_empty());
}

#[test]
fn replace_all_takes_patterns_and_plain_text() {
    let replaced = |query: &str, regex: bool, case: bool| {
        let mut s = replacing(FileSearchState::new());
        s.query.set(query);
        s.use_regex = regex;
        s.case_sensitive = case;
        let mut edits = loaded(&[("/tmp/a.rs", "a.c abc A.C\n")]);
        apply_replace_all(&s, &Tabs::new(), &mut edits, &None);
        text(&edits, "/tmp/a.rs")
    };
    assert_eq!(replaced("a.c", false, true), "BAR abc A.C\n");
    assert_eq!(replaced("a.c", true, true), "BAR BAR A.C\n");
    assert_eq!(replaced("a.c", false, false), "BAR abc BAR\n");
    assert_eq!(replaced("(", true, true), "a.c abc A.C\n");
    assert_eq!(replaced("", true, true), "a.c abc A.C\n");
}

fn one_hit(path: &str) -> FileSearchState {
    let mut s = replacing(state_of(path, vec![hit(path, 1, 7, "alpha foo beta", (6, 9))]));
    s.selection = FileSearchSelection::Result(0);
    s
}

#[test]
fn right_arrow_on_result_marks_hit_replaced_and_advances() {
    let mut edits = loaded(&[("/tmp/a.rs", "alpha foo beta\n")]);
    let mut s = one_hit("/tmp/a.rs");
    s.results[0].hits.push(hit("/tmp/a.rs", 2, 1, "foo at start", (0, 3)));
    s.flat_hits.push(hit("/tmp/a.rs", 2, 1, "foo at start", (0, 3)));
    s.hit_replacements = no_marks(2);
    replace_selected(&mut s, &Tabs::new(), &mut edits);
    assert_eq!(text(&edits, "/tmp/a.rs"), "alpha BAR beta\n");
    assert_eq!(s.flat_hits.len(), 2);
    assert!(s.hit_replacements[0].is_some());
    assert!(s.hit_replacements[1].is_none());
    assert_eq!(s.selection, FileSearchSelection::Result(1));
}

#[test]
fn left_arrow_on_replaced_row_undoes_that_specific_hit() {
    let mut edits = loaded(&[("/tmp/a.rs", "alpha foo beta\n")]);
    let mut s = one_hit("/tmp/a.rs");
    replace_selected(&mut s, &Tabs::new(), &mut edits);
    assert_eq!(text(&edits, "/tmp/a.rs"), "alpha BAR beta\n");
    assert!(s.hit_replacements[0].is_some());
    assert_eq!(s.selection, FileSearchSelection::Result(0));
    unreplace_selected(&mut s, &Tabs::new(), &mut edits);
    assert_eq!(text(&edits, "/tmp/a.rs"), "alpha foo beta\n");
    assert!(s.hit_replacements[0].is_none());
    assert_eq!(s.flat_hits.len(), 1);
}

#[test]
fn left_arrow_on_pending_row_is_noop() {
    let mut s = one_hit("/tmp/a.rs");
    unreplace_selected(&mut s, &Tabs::new(), &mut BufferEdits::new());
    assert!(s.hit_replacements[0].is_none());
}

#[test]
fn right_arrow_on_on_disk_hit_queues_driver_cmd() {
    let mut edits = BufferEdits::new();
    let mut s = one_hit("/tmp/unloaded.rs");
    replace_selected(&mut s, &Tabs::new(), &mut edits);
    assert_eq!(s.flat_hits.len(), 1);
    assert!(s.hit_replacements[0].is_some());
    assert_eq!(edits.pending_single_replace.len(), 1);
    let cmd = &edits.pending_single_replace[0];
    assert_eq!(cmd.path.as_str(), "/tmp/unloaded.rs");
    assert_eq!(cmd.line, 1);
    assert_eq!(cmd.match_start, 6);
    assert_eq!(cmd.match_end, 9);
    assert_eq!(cmd.original, "foo");
    assert_eq!(cmd.replacement, "BAR");
}

#[test]
fn left_arrow_undoes_on_disk_replace_by_queueing_inverse_cmd() {
    let mut edits = BufferEdits::new();
    let mut s = one_hit("/tmp/unloaded.rs");
    replace_selected(&mut s, &Tabs::new(), &mut edits);
    assert_eq!(edits.pending_single_replace.len(), 1);
    assert!(s.hit_replacements[0].is_some());
    unreplace_selected(&mut s, &Tabs::new(), &mut edits);
    assert_eq!(edits.pending_single_replace.len(), 2);
    let inverse = &edits.pending_single_replace[1];
    assert_eq!(inverse.path.as_str(), "/tmp/unloaded.rs");
    assert_eq!(inverse.line, 1);
    assert_eq!(inverse.match_start, 6);
    assert_eq!(inverse.match_end, 9);
    assert_eq!(inverse.original, "BAR");
    assert_eq!(inverse.replacement, "foo");
    assert!(s.hit_replacements[0].is_none());
}

#[test]
fn queue_search_clears_hit_replacements() {
    let mut edits = loaded(&[("/tmp/a.rs", "alpha foo beta\n")]);
    let mut s = one_hit("/tmp/a.rs");
    replace_selected(&mut s, &Tabs::new(), &mut edits);
    assert!(s.hit_replacements[0].is_some());
    s.query.insert_char('x');
    s.queue_search();
    assert!(s.hit_replacements.is_empty());
}

fn marked(s: &Option<FileSearchState>, i: usize) -> bool {
    s.as_ref().unwrap().hit_replacements[i].is_some()
}

fn replace_at(s: &mut Option<FileSearchState>, i: usize, edits: &mut BufferEdits) {
    let s = s.as_mut().unwrap();
    s.selection = FileSearchSelection::Result(i);
    replace_selected(s, &Tabs::new(), edits);
}

#[test]
fn undo_global_picks_max_seq_buffer_and_syncs_marks() {
    let (a, b) = ("/tmp/a.rs", "/tmp/b.rs");
    let mut edits = loaded(&[(a, "foo in a\n"), (b, "foo in b\n")]);
    let mut s = replacing(state_of(a, vec![hit(a, 1, 1, "foo in a", (0, 3))]));
    let second = hit(b, 1, 1, "foo in b", (0, 3));
    s.results.push(FileSearchGroup {
        path: canon(b),
        relative: b.to_string(),
        hits: vec![second.copy()],
    });
    s.flat_hits.push(second);
    s.hit_replacements = no_marks(2);
    let mut s = Some(s);
    let mut tabs = Tabs::new();
    replace_at(&mut s, 0, &mut edits);
    assert_eq!(text(&edits, a), "BAR in a\n");
    replace_at(&mut s, 1, &mut edits);
    assert_eq!(text(&edits, b), "BAR in b\n");
    assert!(marked(&s, 0));
    assert!(marked(&s, 1));
    undo_global(&mut tabs, &mut edits, &mut s, 0, 40);
    assert_eq!(text(&edits, b), "foo in b\n");
    assert_eq!(text(&edits, a), "BAR in a\n");
    assert!(marked(&s, 0));
    assert!(!marked(&s, 1));
    undo_global(&mut tabs, &mut edits, &mut s, 0, 40);
    assert_eq!(text(&edits, a), "foo in a\n");
    assert!(!marked(&s, 0));
    redo_global(&mut tabs, &mut edits, &mut s, 0, 40);
    assert_eq!(text(&edits, b), "BAR in b\n");
}

fn many_foos(n: usize) -> (BufferEdits, Option<FileSearchState>) {
    let path = "/tmp/a.rs";
    let edits = loaded(&[(path, "foo\n".repeat(n).as_str())]);
    let hits = (1..=n).map(|i| hit(path, i, 1, "foo", (0, 3))).collect();
    (edits, Some(replacing(state_of(path, hits))))
}

#[test]
fn undo_global_scrolls_offscreen_affected_hit_into_view() {
    let (mut edits, mut s) = many_foos(10);
    replace_at(&mut s, 2, &mut edits);
    s.as_mut().unwrap().scroll_offset = 8;
    undo_global(&mut Tabs::new(), &mut edits, &mut s, 0, 6);
    let s = s.unwrap();
    assert_eq!(s.selection, FileSearchSelection::Result(2));
    assert_eq!(s.scroll_offset, 2);
}

#[test]
fn undo_global_leaves_scroll_alone_when_affected_hit_is_visible() {
    let (mut edits, mut s) = many_foos(5);
    replace_at(&mut s, 1, &mut edits);
    s.as_mut().unwrap().scroll_offset = 0;
    undo_global(&mut Tabs::new(), &mut edits, &mut s, 0, 10);
    let s = s.unwrap();
    assert_eq!(s.selection, FileSearchSelection::Result(1));
    assert_eq!(s.scroll_offset, 0);
}

#[test]
fn undo_global_respects_floor_and_refuses_pre_overlay_edits() {
    let mut edits = loaded(&[]);
    let mut eb = EditedBuffer::fresh(Rope::from_str("hello\n"));
    eb.history.record_insert_char(1, 0, 'X', Cursor::origin(), Cursor::origin());
    eb.history.finalise();
    let before = eb.history.past_len();
    edits.put("/tmp/a.rs".to_string(), eb);
    edits.clock = 1;
    let floor = edits.clock;
    undo_global(&mut Tabs::new(), &mut edits, &mut None, floor, 40);
    assert_eq!(edits.get("/tmp/a.rs").unwrap().history.past_len(), before);
}

#[test]
fn hits_have_rows_below_their_file() {
    let mut s = state_with_hits(2);
    s.results.push(FileSearchGroup {
        path: canon("b.rs"),
        relative: "b.rs".to_string(),
        hits: vec![hit("b.rs", 1, 1, "x", (0, 1))],
    });
    assert_eq!(tree_row_index_for_hit(&s.results, 0), 1);
    assert_eq!(tree_row_index_for_hit(&s.results, 1), 2);
    assert_eq!(tree_row_index_for_hit(&s.results, 2), 4);
}

#[test]
fn previews_stand_a_third_down() {
    assert_eq!(preview_scroll_top(2, 3), 1);
    assert_eq!(preview_scroll_top(0, 3), 0);
    assert_eq!(preview_scroll_top(50, 10), 47);
    assert_eq!(preview_scroll_top(7, 0), 0);
}
