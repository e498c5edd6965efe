use led_runtime::alerts::AlertState;
use led_runtime::browser::{BrowserUi, DirEntry, DirEntryKind, FsTree};
use led_runtime::buffers::BufferEdits;
use led_runtime::cells::{line_cells, refresh_preferred_col, CellWidths};
use led_runtime::chars::trim;
use led_runtime::columns::{char_to_cursor, cursor_to_char, Cursor, Scroll};
use led_runtime::edits::{hash_rope, EditGroup, EditOp, EditedBuffer};
use led_runtime::jumps::{JumpListState, JumpPosition};
use led_runtime::listing::sorted_members;
use led_runtime::lsp_apply::{
    apply_edits, apply_goto, apply_one_text_edit, completion_prefix, identifier_start_col, EditsOrigin, FileEdit,
    Location, TextEditOp,
};
use led_runtime::lsp_state::LspPending;
use led_runtime::maps::{PathMap, PathSet};
use led_runtime::paths::CanonPath;
use led_runtime::rewrite::{file_extension, reflow_paragraph, sort_imports, Plan};
use led_runtime::screen::{Dims, Terminal};
use led_runtime::session::{
    apply_pending_undo_restore, apply_session_kv, apply_sync_result, build_session_data,
    build_session_kv, disk_content_hash_for, distance_from_save_for, parse_number,
    seed_edit_from_load, SyncResultKind, UndoPersistTracker, UndoRestore,
};
use led_runtime::tabs::{Tab, TabId, Tabs};
use led_runtime::text::{line_char_len, line_text, rope_of, rope_string};
use led_runtime::undo::undo_buffer;
use led_runtime::workspace::{
    apply_workspace_tree_delta, diff_watch_actions, is_git_internal, is_git_sentinel,
    reconcile_external_change, FileWatchCmd, Registration, Watch, WatchEvent,
};
use ropey::Rope;

fn canon(s: &str) -> CanonPath {
    CanonPath::new(s)
}

fn cur(line: usize, col: usize) -> Cursor {
    Cursor { line, col, preferred_col: col }
}

fn seed(path: &str, body: &str, cursor: Cursor) -> (Tabs, BufferEdits) {
    let mut tabs = Tabs::new();
    let mut tab = Tab::fresh(TabId(1), &canon(path), false, None);
    tab.cursor = cursor;
    tabs.push(tab);
    tabs.active = Some(TabId(1));
    let mut edits = BufferEdits::new();
    edits.put(path.to_string(), EditedBuffer::fresh(Rope::from_str(body)));
    (tabs, edits)
}

fn text(e: &BufferEdits, path: &str) -> String {
    e.get(path).expect("loaded").rope.to_string()
}

fn terminal() -> Terminal {
    Terminal { dims: Some(Dims { cols: 80, rows: 24 }), side_cols: 0 }
}

fn op(sl: usize, sc: usize, el: usize, ec: usize, new_text: &str) -> TextEditOp {
    TextEditOp {
        start_line: sl,
        start_col: sc,
        end_line: el,
        end_col: ec,
        new_text: new_text.to_string(),
    }
}

fn file_edit(path: &str, edits: Vec<TextEditOp>) -> FileEdit {
    FileEdit { path: canon(path), edits }
}

// Language servers

fn wide(clusters: &[&str]) -> CellWidths {
    let mut w = CellWidths::new();
    for c in clusters {
        w.set(c.to_string(), 2);
    }
    w
}

fn going(body: &str, to: Option<Location>) -> (Tabs, JumpListState, AlertState) {
    let (mut tabs, edits) = seed("a.rs", body, cur(0, 0));
    let mut jumps = JumpListState::new();
    let mut alerts = AlertState::new();
    let mut pending = LspPending::new();
    pending.latest_goto_seq = Some(3);
    let mut chains = PathMap::new();
    apply_goto(
        &mut tabs,
        &edits,
        &mut jumps,
        &mut alerts,
        &mut pending,
        &mut chains,
        &terminal(),
        false,
        &wide(&["\u{1F600}"]),
        3,
        to,
    );
    assert_eq!(pending.latest_goto_seq, None);
    (tabs, jumps, alerts)
}

#[test]
fn a_definition_in_an_open_file_takes_the_cursor_there() {
    let to = Location { path: canon("a.rs"), line: 1, col: 3 };
    let (tabs, jumps, _) = going("x\na\u{1F600}b\n", Some(to));
    assert_eq!(tabs.at(0).cursor.line, 1);
    assert_eq!(tabs.at(0).cursor.col, 2);
    assert_eq!(tabs.at(0).cursor.preferred_col, 3);
    assert_eq!(jumps.entries.len(), 1);
}

#[test]
fn a_definition_elsewhere_opens_a_tab() {
    let to = Location { path: canon("b.rs"), line: 4, col: 1 };
    let (tabs, _, _) = going("x\n", Some(to));
    assert_eq!(tabs.len(), 2);
    assert_eq!(tabs.active, Some(tabs.at(1).id));
    assert_eq!(tabs.at(1).path.as_str(), "b.rs");
}

#[test]
fn a_missing_definition_is_warned_of() {
    let (tabs, jumps, alerts) = going("x\n", None);
    assert_eq!(tabs.at(0).cursor, cur(0, 0));
    assert!(jumps.entries.is_empty());
    assert_eq!(alerts.warns.len(), 1);
    assert_eq!(alerts.warns[0].text, "No definition found");
}

fn renamed(seq: u64, file_edits: Vec<FileEdit>) -> (BufferEdits, AlertState) {
    let (tabs, mut edits) = seed("a.rs", "foo bar foo\nfoo\n", cur(0, 0));
    let mut alerts = AlertState::new();
    let mut pending = LspPending::new();
    pending.latest_rename_seq = Some(2);
    apply_edits(
        &mut edits,
        &tabs,
        &mut alerts,
        &mut pending,
        seq,
        EditsOrigin::Rename,
        &file_edits,
        0,
    );
    (edits, alerts)
}

#[test]
fn renames_are_made_from_the_end_and_undone_at_once() {
    let ops = vec![op(0, 0, 0, 3, "longer"), op(1, 0, 1, 3, "x"), op(0, 8, 0, 11, "y")];
    let (mut edits, alerts) = renamed(2, vec![file_edit("a.rs", ops)]);
    assert_eq!(text(&edits, "a.rs"), "longer bar y\nx\n");
    assert_eq!(alerts.info.unwrap().text, "Renamed 3 occurrences in 1 file");
    let mut eb = edits.take("a.rs").unwrap();
    assert!(undo_buffer(&mut eb).is_some());
    assert_eq!(eb.rope.to_string(), "foo bar foo\nfoo\n");
}

#[test]
fn one_occurrence_is_told_as_one() {
    let (_, alerts) = renamed(2, vec![file_edit("a.rs", vec![op(0, 0, 0, 3, "z")])]);
    assert_eq!(alerts.info.unwrap().text, "Renamed 1 occurrence in 1 file");
}

#[test]
fn late_and_senseless_edits_do_nothing() {
    let (edits, alerts) = renamed(1, vec![file_edit("a.rs", vec![op(0, 0, 0, 3, "z")])]);
    assert_eq!(text(&edits, "a.rs"), "foo bar foo\nfoo\n");
    assert!(alerts.info.is_none());
    let bad = vec![op(9, 0, 9, 1, "z"), op(1, 1, 0, 0, "z")];
    let (edits, alerts) = renamed(2, vec![file_edit("a.rs", bad)]);
    assert_eq!(text(&edits, "a.rs"), "foo bar foo\nfoo\n");
    assert!(alerts.info.is_none());
}

#[test]
fn ranges_outside_the_text_are_skipped() {
    for bad in [op(0, 5, 0, 9, "x"), op(0, 0, 0, 4, "x"), op(0, 0, 9, 0, "x"), op(2, 0, 2, 0, "x")] {
        let mut eb = EditedBuffer::fresh(rope_of("ab\n"));
        assert!(apply_one_text_edit(&mut eb, &bad).is_none());
        assert_eq!(eb.rope.to_string(), "ab\n");
        assert_eq!(eb.version, 0);
    }
    let mut eb = EditedBuffer::fresh(rope_of("ab\n"));
    assert!(apply_one_text_edit(&mut eb, &op(0, 2, 0, 3, "!")).is_some());
    assert_eq!(eb.rope.to_string(), "ab!");
    assert_eq!(eb.version, 1);
}

#[test]
fn formatted_files_are_cleaned_and_saved() {
    let (tabs, mut edits) = seed("a.rs", "fn  f()  \n", cur(0, 0));
    let mut alerts = AlertState::new();
    let mut pending = LspPending::new();
    pending.latest_format_seq.insert("a.rs".to_string(), 5);
    pending.pending_save_after_format.insert("a.rs".to_string());
    let ops = vec![file_edit("a.rs", vec![op(0, 2, 0, 4, " ")])];
    let format = EditsOrigin::Format;
    apply_edits(&mut edits, &tabs, &mut alerts, &mut pending, 5, format, &ops, 0);
    assert_eq!(text(&edits, "a.rs"), "fn f()\n");
    assert!(edits.pending_saves.contains("a.rs"));
    assert!(!pending.pending_save_after_format.contains("a.rs"));
    assert!(alerts.info.is_none());
}

#[test]
fn completions_start_where_the_word_does() {
    let (tabs, edits) = seed("a.rs", "let foo_b = 1;\n", cur(0, 9));
    assert_eq!(identifier_start_col(&edits, &canon("a.rs"), 0, 9), 4);
    assert_eq!(completion_prefix(&edits, &canon("a.rs"), tabs.at(0), 0, 4), "foo_b");
}

// Rewriting

#[test]
fn a_plan_rewrites_the_buffer_and_can_be_undone() {
    let (mut tabs, mut edits) = seed("a.md", "one\ntwo\nthree\n", cur(2, 5));
    let mut alerts = AlertState::new();
    let plan = Plan { start_char: 0, end_char: 13, replacement: "one two three".to_string() };
    reflow_paragraph(&mut tabs, &mut edits, &mut alerts, Some(plan), 0);
    assert_eq!(text(&edits, "a.md"), "one two three\n");
    assert_eq!(tabs.at(0).cursor, cur(1, 0));
    assert!(alerts.info.is_none());
    let mut eb = edits.take("a.md").unwrap();
    assert!(undo_buffer(&mut eb).is_some());
    assert_eq!(eb.rope.to_string(), "one\ntwo\nthree\n");
}

#[test]
fn nothing_to_rewrite_is_told() {
    let (mut tabs, mut edits) = seed("a.rs", "x\n", cur(0, 0));
    let mut alerts = AlertState::new();
    reflow_paragraph(&mut tabs, &mut edits, &mut alerts, None, 0);
    assert_eq!(alerts.info.as_ref().unwrap().text, "Nothing to reflow");
    sort_imports(&mut tabs, &mut edits, &mut alerts, None, 0);
    assert_eq!(alerts.info.as_ref().unwrap().text, "Imports already sorted");
    let plan = Plan { start_char: 0, end_char: 1, replacement: "y".to_string() };
    sort_imports(&mut tabs, &mut edits, &mut alerts, Some(plan), 0);
    assert_eq!(alerts.info.as_ref().unwrap().text, "Imports sorted");
    assert_eq!(text(&edits, "a.rs"), "y\n");
}

#[test]
fn extensions_are_those_of_the_path_as_typed() {
    let mut chains = PathMap::new();
    chains.insert("/real/notes".to_string(), vec!["/link/notes.md".to_string()]);
    assert_eq!(file_extension(&canon("/real/notes"), &chains).as_deref(), Some("md"));
    assert_eq!(file_extension(&canon("/x/a.rs"), &chains).as_deref(), Some("rs"));
    let links = vec!["/home/notes".to_string(), "/mid/notes.txt".to_string()];
    chains.insert("/real/other.md".to_string(), links);
    assert_eq!(file_extension(&canon("/real/other.md"), &chains).as_deref(), Some("txt"));
}

// Sessions

fn named(dirs: &[&str]) -> PathSet {
    let mut s = PathSet::new();
    for d in dirs {
        s.insert(d.to_string());
    }
    s
}

#[test]
fn what_is_kept_comes_back() {
    let mut b = BrowserUi::new();
    b.selected_path = Some(canon("/p/x"));
    b.scroll_offset = 7;
    b.expanded_dirs = named(&["/p/b", "/p/a"]);
    let mut jumps = JumpListState::new();
    for line in 0..3 {
        let p = JumpPosition { path: canon("/p/x"), line, col: 0, scroll: Scroll::origin() };
        jumps.record(p);
    }
    jumps.index = 1;
    let kv = build_session_kv(&b, &jumps, Some("[]".to_string()));
    let get = |k: &str| kv.get(k).map(|s| s.as_str());
    assert_eq!(get("browser.selected_path"), Some("/p/x"));
    assert_eq!(get("browser.scroll_offset"), Some("7"));
    assert_eq!(get("browser.expanded_dirs"), Some("/p/a\n/p/b"));
    assert_eq!(get("jump_list.entries"), Some("[]"));
    assert_eq!(get("jump_list.index"), Some("1"));
    let mut b2 = BrowserUi::new();
    let mut jumps2 = JumpListState::new();
    let entries: Vec<JumpPosition> = jumps.entries.iter().map(|e| e.copy()).collect();
    apply_session_kv(&kv, Some(entries), &FsTree::new(), &mut b2, &mut jumps2);
    assert_eq!(b2.selected_path.unwrap().as_str(), "/p/x");
    assert_eq!(b2.scroll_offset, 7);
    assert_eq!(sorted_members(&b2.expanded_dirs), vec!["/p/a", "/p/b"]);
    assert_eq!(jumps2.entries.len(), 3);
    assert_eq!(jumps2.index, 1);
}

#[test]
fn what_makes_no_sense_stands_for_nothing() {
    let mut kv = PathMap::new();
    kv.insert("browser.scroll_offset".to_string(), "-3".to_string());
    kv.insert("jump_list.index".to_string(), "99".to_string());
    let mut b = BrowserUi::new();
    b.scroll_offset = 4;
    let mut jumps = JumpListState::new();
    apply_session_kv(&kv, Some(vec![]), &FsTree::new(), &mut b, &mut jumps);
    assert_eq!(b.scroll_offset, 0);
    assert_eq!(jumps.index, 0);
    assert_eq!(parse_number("+12"), Some(12));
    assert_eq!(parse_number(""), None);
    assert_eq!(parse_number("+"), None);
    assert_eq!(parse_number("99999999999999999999999"), None);
}

#[test]
fn a_jump_list_that_cannot_be_read_is_empty() {
    let mut kv = PathMap::new();
    let mut b = BrowserUi::new();
    b.scroll_offset = 4;
    let mut jumps = JumpListState::new();
    let p = JumpPosition { path: canon("/p/x"), line: 1, col: 0, scroll: Scroll::origin() };
    jumps.record(p);
    apply_session_kv(&kv, None, &FsTree::new(), &mut b, &mut jumps);
    assert_eq!(b.scroll_offset, 4);
    assert_eq!((jumps.entries.len(), jumps.index), (1, 1));
    kv.insert("jump_list.entries".to_string(), "nonsense".to_string());
    apply_session_kv(&kv, None, &FsTree::new(), &mut b, &mut jumps);
    assert_eq!((jumps.entries.len(), jumps.index), (0, 0));
}

#[test]
fn previews_are_not_kept() {
    let mut tabs = Tabs::new();
    tabs.push(Tab::fresh(TabId(1), &canon("a"), false, None));
    tabs.push(Tab::fresh(TabId(2), &canon("b"), true, None));
    tabs.push(Tab::fresh(TabId(3), &canon("c"), false, None));
    tabs.active = Some(TabId(3));
    let d = build_session_data(&tabs, &BrowserUi::new(), &JumpListState::new(), None);
    let kept: Vec<(&str, usize)> =
        d.buffers.iter().map(|b| (b.path.as_str(), b.tab_order)).collect();
    assert_eq!(kept, vec![("a", 0), ("c", 1)]);
    assert_eq!(d.active_tab_order, 1);
    assert!(d.show_side_panel);
    assert!(d.kv.get("jump_list.entries").is_none());
}

fn group(at: usize, s: &str) -> EditGroup {
    EditGroup {
        ops: vec![EditOp::Insert { at, text: s.to_string() }],
        cursor_before: cur(0, 0),
        cursor_after: cur(0, 0),
        seq: 1,
        file_search_mark: None,
        save_point_hash: None,
    }
}

#[test]
fn a_history_is_given_back_to_the_file_it_was_made_on() {
    let (_, mut edits) = seed("a", "hello", cur(0, 0));
    let hash = edits.get("a").unwrap().disk_content_hash;
    let restore = |content_hash: u64| UndoRestore {
        content_hash,
        chain_id: "c".to_string(),
        last_seq: 9,
        entries: vec![group(5, " world")],
    };
    let mut pending = PathMap::new();
    let mut trackers = PathMap::new();
    pending.insert("a".to_string(), restore(hash ^ 1));
    apply_pending_undo_restore(&canon("a"), &mut edits, &mut pending, &mut trackers);
    assert_eq!(text(&edits, "a"), "hello");
    assert!(pending.is_empty() && trackers.is_empty());
    pending.insert("a".to_string(), restore(hash));
    apply_pending_undo_restore(&canon("a"), &mut edits, &mut pending, &mut trackers);
    assert_eq!(text(&edits, "a"), "hello world");
    assert_eq!(edits.get("a").unwrap().version, 1);
    let t: &UndoPersistTracker = trackers.get("a").unwrap();
    assert_eq!((t.chain_id.as_str(), t.persisted_len, t.last_seq), ("c", 1, 9));
    let mut eb = edits.take("a").unwrap();
    assert!(undo_buffer(&mut eb).is_some());
    assert_eq!(eb.rope.to_string(), "hello");
}

fn synced(chain: &str, tamper: u64) -> (BufferEdits, PathMap<UndoPersistTracker>, Vec<String>) {
    let (_, mut edits) = seed("a", "hello", cur(0, 0));
    let content_hash = edits.get("a").unwrap().disk_content_hash ^ tamper;
    let mut trackers = PathMap::new();
    trackers.insert(
        "a".to_string(),
        UndoPersistTracker { chain_id: "c".to_string(), persisted_len: 2, last_seq: 1 },
    );
    let kind = SyncResultKind::SyncEntries {
        path: canon("a"),
        chain_id: chain.to_string(),
        content_hash,
        entries: vec![group(5, "!")],
        new_last_seen_seq: 8,
    };
    let mut rereads = Vec::new();
    apply_sync_result(kind, &mut edits, &mut trackers, &mut rereads);
    (edits, trackers, rereads)
}

#[test]
fn edits_of_another_editor_are_made_and_stay_clean() {
    let (edits, trackers, rereads) = synced("c", 0);
    assert_eq!(text(&edits, "a"), "hello!");
    assert!(!edits.get("a").unwrap().dirty());
    assert_eq!(edits.get("a").unwrap().disk_content_hash, hash_rope(&rope_of("hello!")));
    let t = trackers.get("a").unwrap();
    assert_eq!((t.persisted_len, t.last_seq), (3, 8));
    assert!(rereads.is_empty());
}

#[test]
fn an_undo_takes_back_edits_of_another_editor_first() {
    let (_, mut edits) = seed("a", "hello", cur(0, 0));
    let mut eb = edits.take("a").unwrap();
    eb.history.record_insert_char(1, 5, '?', cur(0, 5), cur(0, 6));
    eb.rope = rope_of("hello?");
    let content_hash = eb.disk_content_hash;
    edits.put("a".to_string(), eb);
    let mut trackers = PathMap::new();
    trackers.insert(
        "a".to_string(),
        UndoPersistTracker { chain_id: "c".to_string(), persisted_len: 0, last_seq: 0 },
    );
    let kind = SyncResultKind::SyncEntries {
        path: canon("a"),
        chain_id: "c".to_string(),
        content_hash,
        entries: vec![group(0, "oh ")],
        new_last_seen_seq: 1,
    };
    apply_sync_result(kind, &mut edits, &mut trackers, &mut Vec::new());
    assert_eq!(text(&edits, "a"), "oh hello?");
    let mut eb = edits.take("a").unwrap();
    assert!(undo_buffer(&mut eb).is_some());
    assert_eq!(eb.rope.to_string(), "hello?");
    assert!(undo_buffer(&mut eb).is_some());
    assert_eq!(eb.rope.to_string(), "hello");
}

#[test]
fn edits_that_do_not_continue_lead_to_a_reread() {
    for (chain, tamper) in [("other", 0), ("c", 1)] {
        let (edits, trackers, rereads) = synced(chain, tamper);
        assert_eq!(text(&edits, "a"), "hello");
        assert_eq!(trackers.get("a").unwrap().last_seq, 1);
        assert_eq!(rereads, vec!["a"]);
    }
}

#[test]
fn a_save_of_another_editor_leads_to_a_reread() {
    let mut edits = BufferEdits::new();
    let mut trackers = PathMap::new();
    let mut rereads = Vec::new();
    let saved = SyncResultKind::ExternalSave { path: canon("z") };
    apply_sync_result(saved, &mut edits, &mut trackers, &mut rereads);
    apply_sync_result(SyncResultKind::NoChange, &mut edits, &mut trackers, &mut rereads);
    assert_eq!(rereads, vec!["z"]);
}

#[test]
fn a_loaded_file_does_not_replace_a_buffer() {
    let mut edits = BufferEdits::new();
    assert!(seed_edit_from_load(&mut edits, &canon("a"), rope_of("one")));
    assert!(!seed_edit_from_load(&mut edits, &canon("a"), rope_of("two")));
    assert_eq!(text(&edits, "a"), "one");
}

#[test]
fn the_distance_from_a_save_counts_steps() {
    let mut eb = EditedBuffer::fresh(rope_of("x"));
    assert_eq!(distance_from_save_for(&eb), 0);
    eb.history.record_insert(1, 0, "a".to_string(), cur(0, 0), cur(0, 1));
    eb.history.insert_save_point(2, 77);
    eb.history.record_insert(3, 0, "b".to_string(), cur(0, 0), cur(0, 1));
    eb.history.record_insert(4, 0, "c".to_string(), cur(0, 0), cur(0, 1));
    assert_eq!(distance_from_save_for(&eb), 2);
}

#[test]
fn the_hash_on_disk_is_that_of_the_loaded_text() {
    let mut eb = EditedBuffer::fresh(rope_of("x"));
    assert_eq!(disk_content_hash_for(&eb), EditedBuffer::fresh(rope_of("x")).disk_content_hash);
    eb.disk_content_hash = 12;
    assert_eq!(disk_content_hash_for(&eb), 12);
}

// The workspace

#[test]
fn git_paths_are_told_apart() {
    for (path, internal, sentinel) in [
        ("/p/.git/index", true, true),
        ("/p/.git/HEAD", true, true),
        ("/p/.git/refs/heads/main", true, true),
        ("/p/.git/refs", true, false),
        ("/p/.git/objects/ab", true, false),
        ("/p/.gitignore", false, false),
        ("/p/src/HEAD", false, false),
    ] {
        assert_eq!(is_git_internal(&canon(path)), internal, "{path}");
        assert_eq!(is_git_sentinel(&canon(path)), sentinel, "{path}");
    }
}

fn project() -> FsTree {
    let mut fs = FsTree::new();
    fs.root = Some(canon("/p"));
    let entry = |name: &str, kind: DirEntryKind| DirEntry {
        name: name.to_string(),
        path: canon(&format!("/p/{name}")),
        kind,
    };
    fs.dir_contents.insert(
        "/p".to_string(),
        vec![entry("d", DirEntryKind::Directory), entry("b.rs", DirEntryKind::File)],
    );
    fs.dir_contents.insert("/p/d".to_string(), vec![]);
    fs
}

fn names(fs: &FsTree) -> Vec<String> {
    fs.dir_contents.get("/p").unwrap().iter().map(|e| e.name.clone()).collect()
}

fn event(path: &str, created: bool, removed: bool, kind: Option<DirEntryKind>) -> WatchEvent {
    WatchEvent { path: canon(path), created, removed, kind }
}

#[test]
fn listings_follow_what_happens_on_disk() {
    let edits = BufferEdits::new();
    let mut fs = project();
    let file = Some(DirEntryKind::File);
    let made = vec![event("/p/a.rs", true, false, file)];
    apply_workspace_tree_delta(&made, &edits, &mut fs);
    assert_eq!(names(&fs), vec!["d", "b.rs", "a.rs"]);
    let gone = vec![event("/p/d", false, true, None), event("/p/b.rs", false, true, None)];
    apply_workspace_tree_delta(&gone, &edits, &mut fs);
    assert_eq!(names(&fs), vec!["a.rs"]);
    assert!(!fs.dir_contents.contains("/p/d"));
    let changed = vec![event("/p/a.rs", false, false, file)];
    apply_workspace_tree_delta(&changed, &edits, &mut fs);
    assert_eq!(names(&fs), vec!["a.rs"]);
}

fn reg(path: &str, recursive: bool) -> Registration {
    Registration { path: canon(path), recursive, debounce_ms: 100 }
}

#[test]
fn watches_are_set_and_dropped_as_wanted() {
    let mut desired = PathMap::new();
    desired.insert("/kept".to_string(), reg("/kept", false));
    desired.insert("/new".to_string(), reg("/new", true));
    let registry = vec![
        Watch { id: 11, reg: reg("/kept", false) },
        Watch { id: 12, reg: reg("/old", false) },
    ];
    let mut next: u64 = 20;
    let cmds =
        diff_watch_actions(&desired, &registry, &mut next, &canon("/root"), &canon("/notify"));
    assert_eq!(next, 21);
    assert_eq!(cmds.len(), 2);
    assert!(matches!(
        &cmds[0],
        FileWatchCmd::Watch { id: 20, path, recursive: true, debounce_ms: 100 }
            if path.as_str() == "/new"
    ));
    assert!(matches!(&cmds[1], FileWatchCmd::Unwatch { id: 12 }));
}

#[test]
fn a_file_changed_on_disk_is_reloaded_unless_edited() {
    let (_, mut edits) = seed("/p/b.rs", "old\n", cur(0, 0));
    let mut fs = project();
    let mut scan: bool = false;
    let path = canon("/p/b.rs");
    let same = Some(rope_of("old\n"));
    reconcile_external_change(&path, same, &mut edits, &mut fs, &mut scan);
    assert!(!scan);
    let new = Some(rope_of("new\n"));
    reconcile_external_change(&path, new, &mut edits, &mut fs, &mut scan);
    assert!(scan);
    assert_eq!(text(&edits, "/p/b.rs"), "new\n");
    assert!(!edits.get("/p/b.rs").unwrap().dirty());
    let mut eb = edits.take("/p/b.rs").unwrap();
    eb.version += 1;
    edits.put("/p/b.rs".to_string(), eb);
    let newer = Some(rope_of("newer\n"));
    reconcile_external_change(&path, newer, &mut edits, &mut fs, &mut scan);
    assert_eq!(text(&edits, "/p/b.rs"), "new\n");
}

// Texts

#[test]
fn ropes_hold_what_they_were_made_of() {
    let rope = rope_of("one\r\ntwo\u{2028}x\n");
    assert_eq!(rope_string(&rope), "one\r\ntwo\u{2028}x\n");
    assert_eq!(line_text(&rope, 0), "one");
    assert_eq!(line_char_len(&rope, 0), 3);
    assert_eq!(line_char_len(&rope, 9), 0);
    for i in [0, 2, 5, 7] {
        assert_eq!(cursor_to_char(&char_to_cursor(i, &rope), &rope), i);
    }
}

#[test]
fn sets_and_maps_hold_each_key_once() {
    let mut s = named(&["b", "a", "b"]);
    assert_eq!(sorted_members(&s), vec!["a", "b"]);
    s.remove("a");
    assert_eq!(s.members(), vec!["b"]);
    let mut m: PathMap<u64> = PathMap::new();
    m.insert("k".to_string(), 1);
    m.insert("k".to_string(), 2);
    assert_eq!(m.get("k"), Some(&2));
    assert_eq!(m.remove("k"), Some(2));
    assert!(m.is_empty());
}

// Cells

#[test]
fn a_cursor_aims_for_the_cell_it_stands_on_within_its_row() {
    let mut w = wide(&["\u{6F22}"]);
    w.set("\u{200B}".to_string(), 0);
    let rope = rope_of("a\u{6F22}b\u{200B}c\u{6F22}d\n");
    let aims = |col: usize, cols: usize, w: &CellWidths| {
        let mut c = cur(0, col);
        refresh_preferred_col(&mut c, &rope, cols, w);
        assert_eq!((c.line, c.col), (0, col));
        c.preferred_col
    };
    let one = CellWidths::new();
    let all: Vec<usize> = (0..8).map(|col| aims(col, 80, &w)).collect();
    assert_eq!(all, vec![0, 1, 3, 4, 4, 5, 7, 8]);
    let plain: Vec<usize> = (0..8).map(|col| aims(col, 80, &one)).collect();
    assert_eq!(plain, vec![0, 1, 2, 3, 4, 5, 6, 7]);
    // Rows of four columns.
    assert_eq!((aims(3, 5, &w), aims(4, 5, &w), aims(6, 5, &w)), (4, 0, 3));
    assert_eq!((aims(3, 5, &one), aims(4, 5, &one), aims(6, 5, &one)), (3, 0, 2));
    let mut c = cur(9, 4);
    refresh_preferred_col(&mut c, &rope, 80, &w);
    assert_eq!(c.preferred_col, 0);
}

#[test]
fn cells_are_counted_as_far_as_they_go() {
    let mut w = CellWidths::new();
    w.set("a".to_string(), usize::MAX);
    w.set("b".to_string(), 2);
    let rope = rope_of("bbab\n");
    assert_eq!(line_cells(&w, &rope, 0, 0, 2), 4);
    assert_eq!(line_cells(&w, &rope, 0, 3, 99), 2);
    assert_eq!(line_cells(&w, &rope, 0, 3, 1), 0);
    assert_eq!(line_cells(&w, &rope, 0, 0, 4), usize::MAX);
    assert_eq!(line_cells(&w, &rope, 7, 0, 4), 0);
}

#[test]
fn white_space_is_that_of_unicode() {
    for c in ["\t", "\n", "\u{b}", "\r", " ", "\u{85}", "\u{a0}", "\u{1680}", "\u{2000}", "\u{200a}"] {
        assert_eq!(trim(&format!("{c}x{c}")), "x");
    }
    for c in ["\u{2028}", "\u{2029}", "\u{202f}", "\u{205f}", "\u{3000}"] {
        assert_eq!(trim(&format!("{c}x{c}")), "x");
    }
    for c in ["\u{8}", "\u{e}", "\u{1f}", "\u{200b}", "\u{180e}", "\u{feff}"] {
        let s = format!("{c}x{c}");
        assert_eq!(trim(&s), s);
    }
}
