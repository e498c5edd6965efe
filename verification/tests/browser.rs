use std::cmp::Ordering;

use led_runtime::browser::{
    _dummy_ordering, collapse_all, collapse_dir, entries_of, expand_dir, move_selection,
    open_selected, open_selected_bg, select_first, select_last, toggle_focus, toggle_side_panel,
    BrowserUi, DirEntry, DirEntryKind, Focus, FsTree, PathChains,
};
use led_runtime::maps::PathMap;
use led_runtime::paths::CanonPath;
use led_runtime::tabs::{open_or_focus_tab, Tab, TabId, Tabs};

fn canon(s: &str) -> CanonPath {
    CanonPath::new(s)
}

fn entry(name: &str, path: &str, kind: DirEntryKind) -> DirEntry {
    DirEntry { name: name.to_string(), path: canon(path), kind }
}

struct Fixture {
    b: BrowserUi,
    fs: FsTree,
    tabs: Tabs,
    pc: PathChains,
}

fn seeded() -> Fixture {
    let mut fs = FsTree::new();
    fs.root = Some(canon("/project"));
    fs.dir_contents.insert(
        "/project".to_string(),
        vec![
            entry("sub", "/project/sub", DirEntryKind::Directory),
            entry("alpha.txt", "/project/alpha.txt", DirEntryKind::File),
            entry("beta.txt", "/project/beta.txt", DirEntryKind::File),
        ],
    );
    fs.dir_contents.insert(
        "/project/sub".to_string(),
        vec![entry("inner.txt", "/project/sub/inner.txt", DirEntryKind::File)],
    );
    Fixture { b: BrowserUi::new(), fs, tabs: Tabs::new(), pc: PathMap::new() }
}

impl Fixture {
    fn select(&mut self, path: &str) {
        self.b.selected_path = Some(canon(path));
    }

    fn selected(&self) -> Option<&str> {
        self.b.selected_path.as_ref().map(|p| p.as_str())
    }

    fn expanded(&self, path: &str) -> bool {
        self.b.expanded_dirs.contains(path)
    }

    fn step(&mut self, delta: isize) {
        move_selection(&mut self.b, &self.fs, &mut self.tabs, &mut self.pc, delta);
    }

    fn open(&mut self) {
        open_selected(&mut self.b, &self.fs, &mut self.tabs, &mut self.pc);
    }

    fn open_bg(&mut self) {
        open_selected_bg(&self.b, &self.fs, &mut self.tabs, &mut self.pc);
    }
}

#[test]
fn toggle_side_panel_flips_visible() {
    let mut b = BrowserUi::new();
    assert!(b.visible);
    toggle_side_panel(&mut b);
    assert!(!b.visible);
}

#[test]
fn toggle_side_panel_off_auto_swaps_focus_to_main() {
    let mut b = BrowserUi::new();
    b.focus = Focus::Side;
    toggle_side_panel(&mut b);
    assert_eq!(b.focus, Focus::Main);
}

#[test]
fn toggle_focus_shows_panel_and_flips_focus() {
    let mut b = BrowserUi::new();
    b.visible = false;
    toggle_focus(&mut b);
    assert!(b.visible);
    assert_eq!(b.focus, Focus::Side);
    toggle_focus(&mut b);
    assert_eq!(b.focus, Focus::Main);
}

#[test]
fn expand_dir_on_selected_dir_adds_to_expanded() {
    let mut f = seeded();
    f.select("/project/sub");
    expand_dir(&mut f.b, &f.fs, &f.tabs);
    assert!(f.expanded("/project/sub"));
}

#[test]
fn expand_dir_on_file_is_noop() {
    let mut f = seeded();
    f.select("/project/alpha.txt");
    expand_dir(&mut f.b, &f.fs, &f.tabs);
    assert!(f.b.expanded_dirs.members().is_empty());
}

#[test]
fn collapse_dir_on_expanded_collapses() {
    let mut f = seeded();
    f.b.expanded_dirs.insert("/project/sub".to_string());
    f.select("/project/sub");
    collapse_dir(&mut f.b, &f.fs, &f.tabs);
    assert!(!f.expanded("/project/sub"));
}

#[test]
fn collapse_dir_on_leaf_collapses_parent() {
    let mut f = seeded();
    f.b.expanded_dirs.insert("/project/sub".to_string());
    f.select("/project/sub/inner.txt");
    collapse_dir(&mut f.b, &f.fs, &f.tabs);
    assert!(!f.expanded("/project/sub"));
    assert_eq!(f.selected(), Some("/project/sub"));
}

#[test]
fn collapse_all_clears_expanded_and_resets_selection() {
    let mut f = seeded();
    f.b.expanded_dirs.insert("/project/sub".to_string());
    f.select("/project/beta.txt");
    f.b.scroll_offset = 1;
    collapse_all(&mut f.b);
    assert!(f.b.expanded_dirs.members().is_empty());
    assert_eq!(f.selected(), None);
    assert_eq!(f.b.scroll_offset, 0);
}

#[test]
fn open_selected_on_dir_toggles_expand() {
    let mut f = seeded();
    f.select("/project/sub");
    f.open();
    assert!(f.expanded("/project/sub"));
    f.open();
    assert!(!f.expanded("/project/sub"));
}

#[test]
fn open_selected_on_file_creates_real_tab_and_focuses_main() {
    let mut f = seeded();
    f.select("/project/alpha.txt");
    f.b.focus = Focus::Side;
    f.open();
    assert_eq!(f.tabs.len(), 1);
    assert!(!f.tabs.at(0).preview);
    assert_eq!(f.tabs.active, Some(f.tabs.at(0).id));
    assert_eq!(f.b.focus, Focus::Main);
}

#[test]
fn open_selected_bg_creates_preview_and_keeps_side_focus() {
    let mut f = seeded();
    f.select("/project/alpha.txt");
    f.b.focus = Focus::Side;
    f.open_bg();
    assert_eq!(f.tabs.len(), 1);
    assert!(f.tabs.at(0).preview);
    assert_eq!(f.b.focus, Focus::Side);
}

#[test]
fn open_selected_on_preview_promotes_it() {
    let mut f = seeded();
    f.tabs.push(Tab::fresh(TabId(1), &canon("/project/alpha.txt"), true, None));
    f.tabs.active = Some(TabId(1));
    f.select("/project/alpha.txt");
    f.open();
    assert_eq!(f.tabs.len(), 1);
    assert!(!f.tabs.at(0).preview);
}

#[test]
fn open_selected_on_different_file_replaces_preview_path() {
    let mut f = seeded();
    f.tabs.push(Tab::fresh(TabId(1), &canon("/project/alpha.txt"), true, None));
    f.tabs.active = Some(TabId(1));
    f.select("/project/beta.txt");
    f.open_bg();
    assert_eq!(f.tabs.len(), 1);
    assert_eq!(f.tabs.at(0).path.as_str(), "/project/beta.txt");
    assert!(f.tabs.at(0).preview);
}

#[test]
fn move_selection_moves_within_entries() {
    let mut f = seeded();
    f.step(2);
    assert_eq!(f.selected(), Some("/project/beta.txt"));
    f.step(-1);
    assert_eq!(f.selected(), Some("/project/alpha.txt"));
}

#[test]
fn move_selection_opens_preview_for_file_row() {
    let mut f = seeded();
    f.step(1);
    assert_eq!(f.tabs.len(), 1);
    assert!(f.tabs.at(0).preview);
    assert_eq!(f.tabs.at(0).path.as_str(), "/project/alpha.txt");
}

#[test]
fn move_selection_onto_directory_row_does_not_open_anything() {
    let mut f = seeded();
    f.select("/project/alpha.txt");
    f.step(-1);
    assert_eq!(f.selected(), Some("/project/sub"));
    assert_eq!(f.tabs.len(), 0);
}

#[test]
fn nav_onto_directory_closes_existing_preview() {
    let mut f = seeded();
    f.step(1);
    assert_eq!(f.tabs.len(), 1);
    assert!(f.tabs.at(0).preview);
    f.step(-1);
    assert_eq!(f.tabs.len(), 0);
    assert!(f.tabs.active.is_none());
}

#[test]
fn close_preview_restores_previous_tab() {
    let mut f = seeded();
    f.tabs.push(Tab::fresh(TabId(7), &canon("/project/committed.rs"), false, None));
    f.tabs.active = Some(TabId(7));
    f.step(1);
    assert_eq!(f.tabs.len(), 2);
    f.step(-1);
    assert_eq!(f.tabs.len(), 1);
    assert_eq!(f.tabs.active, Some(TabId(7)));
}

#[test]
fn successive_file_nav_replaces_the_same_preview_slot() {
    let mut f = seeded();
    f.step(1);
    f.step(1);
    assert_eq!(f.tabs.len(), 1);
    assert_eq!(f.tabs.at(0).path.as_str(), "/project/beta.txt");
    assert!(f.tabs.at(0).preview);
}

#[test]
fn _dummy_ordering_is_equal() {
    assert_eq!(_dummy_ordering(), Ordering::Equal);
}

#[test]
fn directories_come_first_and_expanded_ones_show_their_entries() {
    let mut f = seeded();
    f.b.expanded_dirs.insert("/project/sub".to_string());
    let rows: Vec<(String, usize)> =
        entries_of(&f.b, &f.fs, &f.tabs).into_iter().map(|e| (e.name, e.depth)).collect();
    let expected = [("sub", 0), ("inner.txt", 1), ("alpha.txt", 0), ("beta.txt", 0)];
    assert_eq!(rows, expected.map(|(n, d)| (n.to_string(), d)));
}

#[test]
fn the_ends_of_the_tree_can_be_selected() {
    let mut f = seeded();
    select_last(&mut f.b, &f.fs, &mut f.tabs, &mut f.pc);
    assert_eq!(f.selected(), Some("/project/beta.txt"));
    select_first(&mut f.b, &f.fs, &mut f.tabs, &mut f.pc);
    assert_eq!(f.selected(), Some("/project/sub"));
}

#[test]
fn opening_twice_keeps_one_tab() {
    let mut tabs = Tabs::new();
    open_or_focus_tab(&mut tabs, &canon("/a.rs"), true);
    open_or_focus_tab(&mut tabs, &canon("/a.rs"), true);
    assert_eq!(tabs.len(), 1);
}

#[test]
fn deep_trees_are_shown_whole() {
    let mut fs = FsTree::new();
    let mut b = BrowserUi::new();
    fs.root = Some(canon("/r"));
    let mut dir = "/r".to_string();
    for _ in 0..300 {
        let next = format!("{dir}/d");
        fs.dir_contents.insert(dir, vec![entry("d", &next, DirEntryKind::Directory)]);
        b.expanded_dirs.insert(next.clone());
        dir = next;
    }
    fs.dir_contents.insert(dir.clone(), vec![entry("f", &format!("{dir}/f"), DirEntryKind::File)]);
    let rows = entries_of(&b, &fs, &Tabs::new());
    assert_eq!(rows.len(), 301);
    assert_eq!(rows[300].name, "f");
    assert_eq!(rows[300].depth, 300);
}

#[test]
fn links_are_kept_with_the_path_that_was_shown() {
    let mut f = seeded();
    let links = vec!["/dotfiles/alpha".to_string(), "/real/alpha.rs".to_string()];
    f.fs.links.insert("/project/alpha.txt".to_string(), links);
    f.select("/project/alpha.txt");
    f.open();
    assert_eq!(
        f.pc.get("/project/alpha.txt").unwrap(),
        &vec![
            "/project/alpha.txt".to_string(),
            "/dotfiles/alpha".to_string(),
            "/real/alpha.rs".to_string(),
        ],
    );
}
