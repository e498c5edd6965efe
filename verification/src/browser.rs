//! The file browser: the tree as it is shown, and moving in it.

use vstd::prelude::*;

use crate::buffers;
use crate::maps::{PathMap, PathSet};
use crate::paths;
use crate::paths::{is_under, path_less, CanonPath};
use crate::seqs;
use crate::tabs;
use crate::tabs::{close_preview, open_or_focus_tab, Tabs, TabsView};

verus! {

// ---------------------------------------------------------------------
// State
// ---------------------------------------------------------------------

#[derive(Clone, Copy, Debug, PartialEq, Eq, Structural)]
pub enum DirEntryKind {
    File,
    Directory,
}

/// A file or directory in a listing.
pub struct DirEntry {
    pub name: String,
    pub path: CanonPath,
    pub kind: DirEntryKind,
}

#[verifier::ext_equal]
pub struct DirView {
    pub name: Seq<char>,
    pub path: Seq<char>,
    pub kind: DirEntryKind,
}

impl View for DirEntry {
    type V = DirView;

    open spec fn view(&self) -> DirView {
        DirView { name: self.name@, path: self.path@, kind: self.kind }
    }
}

impl DirEntry {
    pub fn copy(&self) -> (d: DirEntry)
        ensures
            d == *self,
    {
        DirEntry { name: self.name.clone(), path: self.path.copy(), kind: self.kind }
    }
}

pub open spec fn dir_views(s: Seq<DirEntry>) -> Seq<DirView> {
    Seq::new(s.len(), |i: int| s[i]@)
}

/// What is known of the file system.
pub struct FsTree {
    /// The root of the workspace.
    pub root: Option<CanonPath>,
    pub dir_contents: PathMap<Vec<DirEntry>>,
    /// Directories that could not be listed.
    pub failed_dirs: PathSet,
    /// The canonical form of paths that are not canonical.
    pub canonical: PathMap<CanonPath>,
    /// The paths that a link leads through, one after the other.
    pub links: PathMap<Vec<String>>,
    /// The user's home directory.
    pub home: Option<String>,
}

#[verifier::ext_equal]
pub struct FsView {
    pub root: Option<Seq<char>>,
    pub dirs: Map<Seq<char>, Seq<DirView>>,
    pub failed: Set<Seq<char>>,
    pub canonical: Map<Seq<char>, Seq<char>>,
    pub links: Map<Seq<char>, Seq<Seq<char>>>,
    pub home: Option<Seq<char>>,
}

pub open spec fn opt_path(p: Option<CanonPath>) -> Option<Seq<char>> {
    match p {
        Some(x) => Some(x@),
        None => None,
    }
}

pub open spec fn listing_views(m: Map<Seq<char>, Vec<DirEntry>>) -> Map<Seq<char>, Seq<DirView>> {
    Map::new(|k: Seq<char>| m.dom().contains(k), |k: Seq<char>| dir_views(m[k]@))
}

pub open spec fn path_map_views(m: Map<Seq<char>, CanonPath>) -> Map<Seq<char>, Seq<char>> {
    Map::new(|k: Seq<char>| m.dom().contains(k), |k: Seq<char>| m[k]@)
}

impl View for FsTree {
    type V = FsView;

    open spec fn view(&self) -> FsView {
        FsView {
            root: opt_path(self.root),
            dirs: listing_views(self.dir_contents.map()),
            failed: self.failed_dirs@,
            canonical: path_map_views(self.canonical.map()),
            links: chain_views(self.links.map()),
            home: crate::kill::opt_text(self.home),
        }
    }
}

pub open spec fn empty_fs() -> FsView {
    FsView {
        root: None,
        dirs: Map::empty(),
        failed: Set::empty(),
        canonical: Map::empty(),
        links: Map::empty(),
        home: None,
    }
}

impl FsTree {
    pub fn new() -> (f: FsTree)
        ensures
            f@ == empty_fs(),
    {
        let f = FsTree {
            root: None,
            dir_contents: PathMap::new(),
            failed_dirs: PathSet::new(),
            canonical: PathMap::new(),
            links: PathMap::new(),
            home: None,
        };
        assert(f@ =~= empty_fs());
        f
    }
}

#[derive(Clone, Copy, Debug, PartialEq, Eq, Structural)]
pub enum Focus {
    Main,
    Side,
}

/// The side panel.
pub struct BrowserUi {
    pub visible: bool,
    pub focus: Focus,
    pub expanded_dirs: PathSet,
    pub selected_path: Option<CanonPath>,
    pub scroll_offset: usize,
}

#[verifier::ext_equal]
pub struct BrowserView {
    pub visible: bool,
    pub focus: Focus,
    pub expanded_dirs: Set<Seq<char>>,
    pub selected_path: Option<Seq<char>>,
    pub scroll_offset: usize,
}

impl View for BrowserUi {
    type V = BrowserView;

    open spec fn view(&self) -> BrowserView {
        BrowserView {
            visible: self.visible,
            focus: self.focus,
            expanded_dirs: self.expanded_dirs@,
            selected_path: opt_path(self.selected_path),
            scroll_offset: self.scroll_offset,
        }
    }
}

/// The side panel at the start: shown, and without the focus.
pub open spec fn fresh_panel() -> BrowserView {
    BrowserView {
        visible: true,
        focus: Focus::Main,
        expanded_dirs: Set::empty(),
        selected_path: None,
        scroll_offset: 0,
    }
}

impl BrowserUi {
    pub fn new() -> (b: BrowserUi)
        ensures
            b@ == fresh_panel(),
    {
        BrowserUi {
            visible: true,
            focus: Focus::Main,
            expanded_dirs: PathSet::new(),
            selected_path: None,
            scroll_offset: 0,
        }
    }
}

// ---------------------------------------------------------------------
// The tree as it is shown
// ---------------------------------------------------------------------

#[derive(Clone, Copy, Debug, PartialEq, Eq, Structural)]
pub enum TreeEntryKind {
    File,
    Directory { expanded: bool },
}

/// One row of the tree.
pub struct TreeEntry {
    pub path: CanonPath,
    pub name: String,
    pub depth: usize,
    pub kind: TreeEntryKind,
}

#[verifier::ext_equal]
pub struct RowView {
    pub path: Seq<char>,
    pub name: Seq<char>,
    pub depth: int,
    pub kind: TreeEntryKind,
}

impl View for TreeEntry {
    type V = RowView;

    open spec fn view(&self) -> RowView {
        RowView { path: self.path@, name: self.name@, depth: self.depth as int, kind: self.kind }
    }
}

pub open spec fn row_views(s: Seq<TreeEntry>) -> Seq<RowView> {
    Seq::new(s.len(), |i: int| s[i]@)
}

/// The order in a listing: directories first, then by name.
pub open spec fn listed_before(a: DirView, b: DirView) -> bool {
    ||| a.kind is Directory && b.kind is File
    ||| a.kind == b.kind && paths::path_lt(a.name, b.name)
}

/// Where an entry goes in a listing: behind all that it does not come
/// before.
pub open spec fn list_place(s: Seq<DirView>, d: DirView, n: int) -> int
    decreases n,
{
    if n > 0 && n <= s.len() && listed_before(d, s[n - 1]) {
        list_place(s, d, n - 1)
    } else {
        n
    }
}

/// A listing in order.
pub open spec fn in_order(s: Seq<DirView>) -> Seq<DirView>
    decreases s.len(),
{
    if s.len() == 0 {
        s
    } else {
        let rest = in_order(s.drop_last());
        rest.insert(list_place(rest, s.last(), rest.len() as int), s.last())
    }
}

pub proof fn lemma_list_place(s: Seq<DirView>, d: DirView, n: int)
    requires
        0 <= n <= s.len(),
    ensures
        0 <= list_place(s, d, n) <= n,
        forall|i: int| list_place(s, d, n) <= i < n ==> listed_before(d, #[trigger] s[i]),
        list_place(s, d, n) > 0 ==> !listed_before(d, s[list_place(s, d, n) - 1]),
    decreases n,
{
    if n > 0 && listed_before(d, s[n - 1]) {
        lemma_list_place(s, d, n - 1);
    }
}

pub proof fn listing_order_is_total(a: DirView, b: DirView, c: DirView)
    ensures
        !(listed_before(a, b) && listed_before(b, a)),
        !listed_before(a, b) && !listed_before(b, c) ==> !listed_before(a, c),
{
    paths::path_order_is_total(a.name, b.name);
    paths::path_order_is_total(b.name, c.name);
    paths::path_order_is_total(a.name, c.name);
    if paths::path_lt(c.name, b.name) && paths::path_lt(b.name, a.name) {
        paths::path_order_is_transitive(c.name, b.name, a.name);
    }
}

/// A listing in order has the same entries, and none of them comes after
/// one that it belongs before.
pub proof fn in_order_is_sorted(s: Seq<DirView>)
    ensures
        in_order(s).len() == s.len(),
        in_order(s).to_multiset() == s.to_multiset(),
        forall|i: int, j: int|
            0 <= i < j < in_order(s).len() ==> !listed_before(
                #[trigger] in_order(s)[j],
                #[trigger] in_order(s)[i],
            ),
    decreases s.len(),
{
    if s.len() > 0 {
        let rest = in_order(s.drop_last());
        let d = s.last();
        in_order_is_sorted(s.drop_last());
        lemma_list_place(rest, d, rest.len() as int);
        let p = list_place(rest, d, rest.len() as int);
        let all = in_order(s);
        assert(all =~= rest.insert(p, d));
        rest.to_multiset_ensures();
        s.drop_last().to_multiset_ensures();
        assert(s =~= s.drop_last().push(d));
        vstd::seq_lib::to_multiset_insert(rest, p, d);
        assert(all.to_multiset() =~= s.to_multiset());
        assert forall|i: int, j: int| 0 <= i < j < all.len() implies !listed_before(
            #[trigger] all[j],
            #[trigger] all[i],
        ) by {
            if j < p {
                assert(all[j] == rest[j] && all[i] == rest[i]);
            } else if j == p {
                assert(all[i] == rest[i]);
                assert(!listed_before(d, rest[p - 1]));
                if i < p - 1 {
                    assert(!listed_before(rest[p - 1], rest[i]));
                }
                listing_order_is_total(d, rest[p - 1], rest[i]);
            } else {
                assert(all[j] == rest[j - 1]);
                if i < p {
                    assert(all[i] == rest[i]);
                } else if i == p {
                    assert(listed_before(d, rest[j - 1]));
                    listing_order_is_total(d, rest[j - 1], d);
                } else {
                    assert(all[i] == rest[i - 1]);
                }
            }
        }
    }
}

/// A directory is shown open: it was expanded, or holds the file of the
/// active tab.
pub open spec fn shown_open(b: BrowserView, active: Option<Seq<char>>, dir: Seq<char>) -> bool {
    b.expanded_dirs.contains(dir) || (active matches Some(a) && a != dir && paths::under(a, dir))
}

/// The row of one entry.
pub open spec fn row_of(b: BrowserView, active: Option<Seq<char>>, d: DirView, depth: int) -> RowView {
    RowView {
        path: d.path,
        name: d.name,
        depth,
        kind: match d.kind {
            DirEntryKind::File => TreeEntryKind::File,
            DirEntryKind::Directory => TreeEntryKind::Directory {
                expanded: shown_open(b, active, d.path),
            },
        },
    }
}

/// The rows below a directory.
pub open spec fn rows_below(
    fs: FsView,
    b: BrowserView,
    active: Option<Seq<char>>,
    dir: Seq<char>,
    depth: int,
    fuel: nat,
) -> Seq<RowView>
    decreases fuel, 0nat,
{
    if fuel == 0 || !fs.dirs.dom().contains(dir) {
        seq![]
    } else {
        let list = in_order(fs.dirs[dir]);
        rows_of_list(fs, b, active, list, depth, (fuel - 1) as nat, list.len() as int)
    }
}

/// The rows of the first `n` entries of a listing, each followed by those
/// below it if it is shown open.
pub open spec fn rows_of_list(
    fs: FsView,
    b: BrowserView,
    active: Option<Seq<char>>,
    list: Seq<DirView>,
    depth: int,
    fuel: nat,
    n: int,
) -> Seq<RowView>
    decreases fuel, 1nat, n,
{
    if n <= 0 || n > list.len() {
        seq![]
    } else {
        let d = list[n - 1];
        let before = rows_of_list(fs, b, active, list, depth, fuel, n - 1).push(
            row_of(b, active, d, depth),
        );
        if d.kind is Directory && shown_open(b, active, d.path) {
            before + rows_below(fs, b, active, d.path, depth + 1, fuel)
        } else {
            before
        }
    }
}

/// The path of the active tab.
pub open spec fn active_path(t: TabsView) -> Option<Seq<char>> {
    match t.active_index() {
        Some(i) => Some(t.open[i].path),
        None => None,
    }
}

/// All rows of the tree. No more directories can lie inside each other than
/// are listed.
pub open spec fn rows(fs: FsView, b: BrowserView, t: TabsView) -> Seq<RowView> {
    match fs.root {
        Some(r) => rows_below(fs, b, active_path(t), r, 0, fs.dirs.dom().len()),
        None => seq![],
    }
}

/// Every entry of a listing has a longer path than the directory.
pub open spec fn nested(fs: FsView) -> bool {
    forall|dir: Seq<char>, i: int|
        fs.dirs.dom().contains(dir) && 0 <= i < fs.dirs[dir].len() ==> (
        #[trigger] fs.dirs[dir][i]).path.len() > dir.len()
}

/// The listed directories whose paths have at least `n` characters.
pub open spec fn listed_from(fs: FsView, n: int) -> Set<Seq<char>> {
    fs.dirs.dom().filter(|p: Seq<char>| p.len() >= n)
}

/// The tree is shown to its full depth: where directories lie inside each
/// other, allowing for more of them shows no other rows.
pub proof fn tree_is_shown_whole(fs: FsView, b: BrowserView, t: TabsView, fuel: nat)
    requires
        fs.dirs.dom().finite(),
        nested(fs),
        fs.root is Some,
        fuel >= fs.dirs.dom().len(),
    ensures
        rows(fs, b, t) == rows_below(fs, b, active_path(t), fs.root->0, 0, fuel),
{
    let all = fs.dirs.dom();
    vstd::set_lib::lemma_len_subset(listed_from(fs, fs.root->0.len() as int), all);
    lemma_fuel(fs, b, active_path(t), fs.root->0, 0, all.len(), fuel);
}

proof fn lemma_fuel(
    fs: FsView,
    b: BrowserView,
    active: Option<Seq<char>>,
    dir: Seq<char>,
    depth: int,
    f: nat,
    g: nat,
)
    requires
        fs.dirs.dom().finite(),
        nested(fs),
        f >= listed_from(fs, dir.len() as int).len(),
        g >= listed_from(fs, dir.len() as int).len(),
    ensures
        rows_below(fs, b, active, dir, depth, f) == rows_below(fs, b, active, dir, depth, g),
    decreases f, 0nat, 0int,
{
    if fs.dirs.dom().contains(dir) {
        let list = in_order(fs.dirs[dir]);
        let here = listed_from(fs, dir.len() as int);
        assert(here.contains(dir));
        assert(here.finite());
        assert(here.len() > 0) by {
            if here.len() == 0 {
                assert(here =~= Set::empty());
            }
        }
        lemma_deeper(fs, dir);
        in_order_is_sorted(fs.dirs[dir]);
        assert forall|i: int| 0 <= i < list.len() implies (#[trigger] list[i]).path.len()
            > dir.len() by {
            let q = fs.dirs[dir];
            list.to_multiset_ensures();
            q.to_multiset_ensures();
            assert(list.to_multiset().count(list[i]) > 0);
            assert(q.contains(list[i]));
            let j = choose|j: int| 0 <= j < q.len() && q[j] == list[i];
            assert(fs.dirs[dir][j].path.len() > dir.len());
        }
        lemma_fuel_list(
            fs,
            b,
            active,
            list,
            depth,
            (f - 1) as nat,
            (g - 1) as nat,
            list.len() as int,
            dir.len() as int + 1,
        );
    }
}

proof fn lemma_deeper(fs: FsView, dir: Seq<char>)
    requires
        fs.dirs.dom().finite(),
        fs.dirs.dom().contains(dir),
    ensures
        listed_from(fs, dir.len() as int + 1).len() < listed_from(fs, dir.len() as int).len(),
{
    let here = listed_from(fs, dir.len() as int);
    assert(here.contains(dir));
    assert(here.remove(dir).finite());
    vstd::set_lib::lemma_len_subset(listed_from(fs, dir.len() as int + 1), here.remove(dir));
}

proof fn lemma_fuel_list(
    fs: FsView,
    b: BrowserView,
    active: Option<Seq<char>>,
    list: Seq<DirView>,
    depth: int,
    f: nat,
    g: nat,
    n: int,
    k: int,
)
    requires
        fs.dirs.dom().finite(),
        nested(fs),
        f >= listed_from(fs, k).len(),
        g >= listed_from(fs, k).len(),
        forall|i: int| 0 <= i < list.len() ==> (#[trigger] list[i]).path.len() >= k,
    ensures
        rows_of_list(fs, b, active, list, depth, f, n) == rows_of_list(
            fs,
            b,
            active,
            list,
            depth,
            g,
            n,
        ),
    decreases f, 1nat, n,
{
    if 0 < n <= list.len() {
        lemma_fuel_list(fs, b, active, list, depth, f, g, n - 1, k);
        let d = list[n - 1];
        assert(listed_from(fs, k).finite());
        vstd::set_lib::lemma_len_subset(
            listed_from(fs, d.path.len() as int),
            listed_from(fs, k),
        );
        lemma_fuel(fs, b, active, d.path, depth + 1, f, g);
    }
}

fn is_listed_before(a: &DirEntry, b: &DirEntry) -> (r: bool)
    ensures
        r == listed_before(a@, b@),
{
    match (a.kind, b.kind) {
        (DirEntryKind::Directory, DirEntryKind::File) => true,
        (DirEntryKind::File, DirEntryKind::Directory) => false,
        _ => path_less(a.name.as_str(), b.name.as_str()),
    }
}

fn sort_listing(v: &Vec<DirEntry>) -> (out: Vec<DirEntry>)
    ensures
        dir_views(out@) == in_order(dir_views(v@)),
{
    let mut out: Vec<DirEntry> = Vec::new();
    let ghost all = dir_views(v@);
    let mut i: usize = 0;
    assert(all.subrange(0, 0) =~= Seq::<DirView>::empty());
    assert(dir_views(out@) =~= Seq::<DirView>::empty());
    while i < v.len()
        invariant
            i <= v.len(),
            all == dir_views(v@),
            dir_views(out@) == in_order(all.subrange(0, i as int)),
        decreases v.len() - i,
    {
        let ghost rest = dir_views(out@);
        let ghost d = all[i as int];
        let mut p: usize = out.len();
        while p > 0 && is_listed_before(&v[i], &out[p - 1])
            invariant
                p <= out.len(),
                i < v.len(),
                rest == dir_views(out@),
                d == v[i as int]@,
                list_place(rest, d, rest.len() as int) == list_place(rest, d, p as int),
            decreases p,
        {
            assert(rest[p - 1] == out[p - 1]@);
            p = p - 1;
        }
        if p > 0 {
            assert(rest[p - 1] == out[p - 1]@);
        }
        out.insert(p, v[i].copy());
        assert(dir_views(out@) =~= rest.insert(p as int, d));
        assert(all.subrange(0, i + 1).drop_last() =~= all.subrange(0, i as int));
        assert(all.subrange(0, i + 1).last() == d);
        i = i + 1;
    }
    assert(all.subrange(0, v.len() as int) =~= all);
    out
}

fn is_shown_open(b: &BrowserUi, active: &Option<CanonPath>, dir: &str) -> (r: bool)
    ensures
        r == shown_open(b@, opt_path(*active), dir@),
{
    if b.expanded_dirs.contains(dir) {
        return true;
    }
    match active {
        Some(a) => !crate::chars::same_text(a.as_str(), dir) && is_under(a.as_str(), dir),
        None => false,
    }
}

fn push_rows(
    out: &mut Vec<TreeEntry>,
    fs: &FsTree,
    b: &BrowserUi,
    active: &Option<CanonPath>,
    dir: &str,
    depth: usize,
    fuel: usize,
)
    requires
        depth + fuel <= usize::MAX,
    ensures
        row_views(final(out)@) == row_views(old(out)@) + rows_below(
            fs@,
            b@,
            opt_path(*active),
            dir@,
            depth as int,
            fuel as nat,
        ),
    decreases fuel,
{
    let ghost v0 = row_views(out@);
    let ghost act = opt_path(*active);
    if fuel == 0 {
        assert(v0 + seq![] =~= v0);
        return;
    }
    let found = match fs.dir_contents.get(dir) {
        Some(v) => v,
        None => {
            assert(v0 + seq![] =~= v0);
            return;
        },
    };
    let list = sort_listing(found);
    let ghost lv = dir_views(list@);
    let ghost less = (fuel - 1) as nat;
    let mut i: usize = 0;
    assert(v0 + seq![] =~= v0);
    while i < list.len()
        invariant
            i <= list.len(),
            lv == dir_views(list@),
            fuel > 0,
            depth + fuel <= usize::MAX,
            less == fuel - 1,
            act == opt_path(*active),
            row_views(out@) == v0 + rows_of_list(fs@, b@, act, lv, depth as int, less, i as int),
        decreases list.len() - i,
    {
        let ghost v1 = row_views(out@);
        let d = &list[i];
        assert(lv[i as int] == d@);
        let open: bool = match d.kind {
            DirEntryKind::Directory => is_shown_open(b, active, d.path.as_str()),
            DirEntryKind::File => false,
        };
        let kind = match d.kind {
            DirEntryKind::File => TreeEntryKind::File,
            DirEntryKind::Directory => TreeEntryKind::Directory { expanded: open },
        };
        out.push(TreeEntry { path: d.path.copy(), name: d.name.clone(), depth, kind });
        let ghost row = row_of(b@, act, d@, depth as int);
        assert(row_views(out@) =~= v1.push(row));
        let ghost before = rows_of_list(fs@, b@, act, lv, depth as int, less, i as int).push(row);
        assert(v1.push(row) =~= v0 + before);
        if open {
            let ghost v2 = row_views(out@);
            push_rows(out, fs, b, active, d.path.as_str(), depth + 1, fuel - 1);
            assert(row_views(out@) =~= v0 + (before + rows_below(
                fs@,
                b@,
                act,
                d@.path,
                depth + 1,
                less,
            )));
        }
        i = i + 1;
    }
}

/// The path of the active tab.
pub fn active_tab_path(tabs: &Tabs) -> (r: Option<CanonPath>)
    ensures
        opt_path(r) == active_path(tabs@),
{
    match tabs.active_index() {
        Some(i) => Some(tabs.at(i).path.copy()),
        None => None,
    }
}

/// The rows of the tree.
pub fn entries_of(browser: &BrowserUi, fs: &FsTree, tabs: &Tabs) -> (v: Vec<TreeEntry>)
    ensures
        row_views(v@) == rows(fs@, browser@, tabs@),
{
    let mut out: Vec<TreeEntry> = Vec::new();
    assert(row_views(out@) =~= Seq::<RowView>::empty());
    let active = active_tab_path(tabs);
    if let Some(root) = &fs.root {
        let fuel: usize = fs.dir_contents.len();
        assert(fs@.dirs.dom() =~= fs.dir_contents.map().dom());
        push_rows(&mut out, fs, browser, &active, root.as_str(), 0, fuel);
        assert(row_views(out@) =~= rows(fs@, browser@, tabs@));
    }
    out
}

pub open spec fn row_at(path: Seq<char>) -> spec_fn(RowView) -> bool {
    |r: RowView| r.path == path
}

/// The selected row: that of the selected path, or the first.
pub open spec fn selected_index(r: Seq<RowView>, selected: Option<Seq<char>>) -> int {
    match selected {
        None => 0,
        Some(p) => match seqs::first_index(r, row_at(p)) {
            Some(i) => i,
            None => 0,
        },
    }
}

fn find_row(entries: &Vec<TreeEntry>, path: &str) -> (r: Option<usize>)
    ensures
        match r {
            Some(i) => seqs::first_index(row_views(entries@), row_at(path@)) == Some(i as int) && i
                < entries.len(),
            None => seqs::first_index(row_views(entries@), row_at(path@)) is None,
        },
{
    let ghost v = row_views(entries@);
    let n: usize = entries.len();
    let mut i: usize = 0;
    while i < n
        invariant
            i <= n,
            n == entries.len(),
            v == row_views(entries@),
            forall|j: int| 0 <= j < i ==> !row_at(path@)(#[trigger] v[j]),
        decreases n - i,
    {
        assert(v[i as int] == entries[i as int]@);
        if crate::chars::same_text(entries[i].path.as_str(), path) {
            proof {
                seqs::lemma_first_is(v, row_at(path@), 0, i as int);
            }
            return Some(i);
        }
        i = i + 1;
    }
    proof {
        seqs::lemma_first_none(v, row_at(path@), 0);
    }
    None
}

fn browser_selected_idx(entries: &Vec<TreeEntry>, selected: &Option<CanonPath>) -> (i: usize)
    ensures
        i == selected_index(row_views(entries@), opt_path(*selected)),
        entries.len() > 0 ==> i < entries.len(),
{
    match selected {
        None => 0,
        Some(p) => match find_row(entries, p.as_str()) {
            Some(i) => i,
            None => 0,
        },
    }
}

/// The selected row, if there are rows.
pub open spec fn selected_row(fs: FsView, b: BrowserView, t: TabsView) -> Option<RowView> {
    let r = rows(fs, b, t);
    let i = selected_index(r, b.selected_path);
    if i < r.len() {
        Some(r[i])
    } else {
        None
    }
}

// ---------------------------------------------------------------------
// Paths as the user sees them
// ---------------------------------------------------------------------

/// The paths by which the user reached each file, by canonical path: the
/// one that was asked for, and those that its links lead through.
pub type PathChains = PathMap<Vec<String>>;

pub open spec fn chain_views(m: Map<Seq<char>, Vec<String>>) -> Map<Seq<char>, Seq<Seq<char>>> {
    Map::new(|k: Seq<char>| m.dom().contains(k), |k: Seq<char>| buffers::string_views(m[k]@))
}

/// A path and those that its links lead through.
pub open spec fn chain_of(fs: FsView, path: Seq<char>) -> Seq<Seq<char>> {
    if fs.links.dom().contains(path) {
        seq![path] + fs.links[path]
    } else {
        seq![path]
    }
}

fn find_chain(fs: &FsTree, path: String) -> (v: Vec<String>)
    ensures
        buffers::string_views(v@) == chain_of(fs@, path@),
{
    let mut v: Vec<String> = Vec::new();
    let ghost p = path@;
    if let Some(links) = fs.links.get(path.as_str()) {
        let ghost q = buffers::string_views(links@);
        v.push(path);
        let mut i: usize = 0;
        assert(buffers::string_views(v@) =~= seq![p] + q.subrange(0, 0));
        while i < links.len()
            invariant
                i <= links.len(),
                q == buffers::string_views(links@),
                buffers::string_views(v@) == seq![p] + q.subrange(0, i as int),
            decreases links.len() - i,
        {
            let ghost v0 = buffers::string_views(v@);
            v.push(links[i].clone());
            assert(buffers::string_views(v@) =~= v0.push(q[i as int]));
            assert(seq![p] + q.subrange(0, i + 1) =~= v0.push(q[i as int]));
            i = i + 1;
        }
        assert(q.subrange(0, q.len() as int) =~= q);
    } else {
        v.push(path);
        assert(buffers::string_views(v@) =~= seq![p]);
    }
    v
}

/// `dir` and `name` joined.
pub open spec fn joined(dir: Seq<char>, name: Seq<char>) -> Seq<char> {
    if dir.len() > 0 && dir.last() == '/' {
        dir + name
    } else {
        dir.push('/') + name
    }
}

/// The last row before `n` that is one level above `depth`.
pub open spec fn parent_row(r: Seq<RowView>, depth: int, n: int) -> Option<int>
    decreases n,
{
    if n <= 0 || n > r.len() {
        None
    } else if r[n - 1].depth + 1 == depth {
        Some(n - 1)
    } else {
        parent_row(r, depth, n - 1)
    }
}

/// The path by which the user reaches row `i`: the name of the row in the
/// directory that it is shown in.
pub open spec fn shown_path(r: Seq<RowView>, fs: FsView, i: int) -> Option<Seq<char>> {
    let dir = if r[i].depth == 0 {
        fs.root
    } else {
        match parent_row(r, r[i].depth, i) {
            Some(p) => Some(r[p].path),
            None => fs.root,
        }
    };
    match dir {
        Some(d) => Some(joined(d, r[i].name)),
        None => None,
    }
}

/// The chains with the one of row `i`.
pub open spec fn chained(
    r: Seq<RowView>,
    fs: FsView,
    c: Map<Seq<char>, Seq<Seq<char>>>,
    i: int,
) -> Map<Seq<char>, Seq<Seq<char>>> {
    match shown_path(r, fs, i) {
        Some(p) => c.insert(r[i].path, chain_of(fs, p)),
        None => c,
    }
}

fn join_path(dir: &str, name: &str) -> (s: String)
    ensures
        s@ == joined(dir@, name@),
{
    let mut s = dir.to_owned();
    let n: usize = dir.unicode_len();
    if n == 0 || dir.get_char(n - 1) != '/' {
        s.push('/');
    }
    s.push_str(name);
    s
}

fn parent_tree_entry(entries: &Vec<TreeEntry>, idx: usize) -> (r: Option<usize>)
    requires
        idx < entries.len(),
    ensures
        ({
            let v = row_views(entries@);
            if v[idx as int].depth == 0 {
                r is None
            } else {
                match r {
                    Some(p) => parent_row(v, v[idx as int].depth, idx as int) == Some(p as int) && p
                        < idx,
                    None => parent_row(v, v[idx as int].depth, idx as int) is None,
                }
            }
        }),
{
    let ghost v = row_views(entries@);
    let depth: usize = entries[idx].depth;
    assert(v[idx as int] == entries[idx as int]@);
    if depth == 0 {
        return None;
    }
    let mut n: usize = idx;
    while n > 0
        invariant
            n <= idx,
            idx < entries.len(),
            depth > 0,
            v == row_views(entries@),
            v[idx as int].depth == depth,
            parent_row(v, depth as int, idx as int) == parent_row(v, depth as int, n as int),
        decreases n,
    {
        assert(v[n - 1] == entries[n - 1]@);
        if entries[n - 1].depth == depth - 1 {
            return Some(n - 1);
        }
        n = n - 1;
    }
    None
}

fn stash_browser_chain(
    entries: &Vec<TreeEntry>,
    fs: &FsTree,
    path_chains: &mut PathChains,
    idx: usize,
)
    requires
        idx < entries.len(),
    ensures
        chain_views(final(path_chains).map()) == chained(
            row_views(entries@),
            fs@,
            chain_views(old(path_chains).map()),
            idx as int,
        ),
{
    let ghost v = row_views(entries@);
    let entry = &entries[idx];
    assert(v[idx as int] == entry@);
    let typed = match parent_tree_entry(entries, idx) {
        Some(p) => {
            assert(v[p as int] == entries[p as int]@);
            join_path(entries[p].path.as_str(), entry.name.as_str())
        },
        None => match &fs.root {
            Some(root) => join_path(root.as_str(), entry.name.as_str()),
            None => {
                return;
            },
        },
    };
    let ghost p = typed@;
    let chain = find_chain(fs, typed);
    path_chains.insert(entry.path.text.clone(), chain);
    assert(chain_views(path_chains.map()) =~= chain_views(old(path_chains).map()).insert(
        entry@.path,
        chain_of(fs@, p),
    ));
}

// ---------------------------------------------------------------------
// Commands
// ---------------------------------------------------------------------

/// The panel shown or hidden. A hidden panel does not keep the focus.
pub open spec fn panel_toggled(b: BrowserView) -> BrowserView {
    BrowserView {
        visible: !b.visible,
        focus: if b.visible {
            Focus::Main
        } else {
            b.focus
        },
        ..b
    }
}

/// Shows or hides the side panel.
pub fn toggle_side_panel(browser: &mut BrowserUi)
    ensures
        final(browser)@ == panel_toggled(old(browser)@),
{
    browser.visible = !browser.visible;
    if !browser.visible {
        browser.focus = Focus::Main;
    }
}

pub open spec fn focus_toggled(b: BrowserView) -> BrowserView {
    match b.focus {
        Focus::Main => BrowserView { visible: true, focus: Focus::Side, ..b },
        Focus::Side => BrowserView { focus: Focus::Main, ..b },
    }
}

/// Moves the focus to the side panel, which is then shown, or back.
pub fn toggle_focus(browser: &mut BrowserUi)
    ensures
        final(browser)@ == focus_toggled(old(browser)@),
{
    match browser.focus {
        Focus::Main => {
            browser.visible = true;
            browser.focus = Focus::Side;
        },
        Focus::Side => {
            browser.focus = Focus::Main;
        },
    }
}

pub open spec fn expanded(fs: FsView, b: BrowserView, t: TabsView) -> BrowserView {
    match selected_row(fs, b, t) {
        Some(r) => if r.kind == (TreeEntryKind::Directory { expanded: false }) {
            BrowserView { expanded_dirs: b.expanded_dirs.insert(r.path), ..b }
        } else {
            b
        },
        None => b,
    }
}

/// Expands the selected directory.
pub fn expand_dir(browser: &mut BrowserUi, fs: &FsTree, tabs: &Tabs)
    ensures
        final(browser)@ == expanded(fs@, old(browser)@, tabs@),
{
    let entries = entries_of(browser, fs, tabs);
    let ghost v = row_views(entries@);
    let i: usize = browser_selected_idx(&entries, &browser.selected_path);
    if i < entries.len() {
        assert(v[i as int] == entries[i as int]@);
        if let TreeEntryKind::Directory { expanded } = entries[i].kind {
            if !expanded {
                browser.expanded_dirs.insert(entries[i].path.text.clone());
            }
        }
    }
}

/// The last row before `n` that is an open directory above `depth`.
pub open spec fn open_ancestor(r: Seq<RowView>, depth: int, n: int) -> Option<int>
    decreases n,
{
    if n <= 0 || n > r.len() {
        None
    } else if r[n - 1].depth < depth && r[n - 1].kind == (TreeEntryKind::Directory {
        expanded: true,
    }) {
        Some(n - 1)
    } else {
        open_ancestor(r, depth, n - 1)
    }
}

/// The directory that collapsing at row `i` closes: the row itself, or for
/// a file the open directory that it is in.
pub open spec fn collapse_target(r: Seq<RowView>, i: int) -> Option<Seq<char>> {
    match r[i].kind {
        TreeEntryKind::Directory { expanded } => if expanded {
            Some(r[i].path)
        } else {
            None
        },
        TreeEntryKind::File => {
            let k = seqs::first_from(r, row_at(r[i].path), 0);
            match open_ancestor(r, r[k].depth, k) {
                Some(p) => Some(r[p].path),
                None => None,
            }
        },
    }
}

pub open spec fn collapsed(fs: FsView, b: BrowserView, t: TabsView) -> BrowserView {
    let r = rows(fs, b, t);
    let i = selected_index(r, b.selected_path);
    if i < r.len() {
        match collapse_target(r, i) {
            Some(p) => BrowserView {
                expanded_dirs: b.expanded_dirs.remove(p),
                selected_path: Some(p),
                ..b
            },
            None => b,
        }
    } else {
        b
    }
}

fn find_expanded_ancestor(entries: &Vec<TreeEntry>, child: usize) -> (r: Option<usize>)
    requires
        child < entries.len(),
    ensures
        ({
            let v = row_views(entries@);
            match r {
                Some(p) => open_ancestor(v, v[child as int].depth, child as int) == Some(p as int) && p
                    < child,
                None => open_ancestor(v, v[child as int].depth, child as int) is None,
            }
        }),
{
    let ghost v = row_views(entries@);
    let depth: usize = entries[child].depth;
    assert(v[child as int] == entries[child as int]@);
    let mut n: usize = child;
    while n > 0
        invariant
            n <= child,
            child < entries.len(),
            v == row_views(entries@),
            v[child as int].depth == depth,
            open_ancestor(v, depth as int, child as int) == open_ancestor(
                v,
                depth as int,
                n as int,
            ),
        decreases n,
    {
        assert(v[n - 1] == entries[n - 1]@);
        if entries[n - 1].depth < depth {
            if let TreeEntryKind::Directory { expanded } = entries[n - 1].kind {
                if expanded {
                    return Some(n - 1);
                }
            }
        }
        n = n - 1;
    }
    None
}

/// Collapses the selected directory, or the one that the selected file is
/// in. The selection goes to the collapsed directory.
pub fn collapse_dir(browser: &mut BrowserUi, fs: &FsTree, tabs: &Tabs)
    ensures
        final(browser)@ == collapsed(fs@, old(browser)@, tabs@),
{
    let entries = entries_of(browser, fs, tabs);
    let ghost v = row_views(entries@);
    let i: usize = browser_selected_idx(&entries, &browser.selected_path);
    if i >= entries.len() {
        return;
    }
    assert(v[i as int] == entries[i as int]@);
    let target: CanonPath = match entries[i].kind {
        TreeEntryKind::Directory { expanded } => {
            if !expanded {
                return;
            }
            entries[i].path.copy()
        },
        TreeEntryKind::File => {
            let k: usize = match find_row(&entries, entries[i].path.as_str()) {
                Some(k) => k,
                None => {
                    proof {
                        seqs::lemma_first_from(v, row_at(v[i as int].path), 0);
                        assert(!row_at(v[i as int].path)(v[i as int]));
                    }
                    return;
                },
            };
            match find_expanded_ancestor(&entries, k) {
                Some(p) => {
                    assert(v[p as int] == entries[p as int]@);
                    entries[p].path.copy()
                },
                None => {
                    return;
                },
            }
        },
    };
    browser.expanded_dirs.remove(target.as_str());
    browser.selected_path = Some(target);
}

pub open spec fn all_collapsed(b: BrowserView) -> BrowserView {
    BrowserView { expanded_dirs: Set::empty(), selected_path: None, scroll_offset: 0, ..b }
}

/// Collapses every directory and forgets selection and scrolling.
pub fn collapse_all(browser: &mut BrowserUi)
    ensures
        final(browser)@ == all_collapsed(old(browser)@),
{
    browser.expanded_dirs = PathSet::new();
    browser.selected_path = None;
    browser.scroll_offset = 0;
}

/// What opening the selected row does: a directory is opened or closed; a
/// file gets a lasting tab and the focus.
pub open spec fn selection_opened(
    fs: FsView,
    b: BrowserView,
    t: TabsView,
    c: Map<Seq<char>, Seq<Seq<char>>>,
) -> (BrowserView, TabsView, Map<Seq<char>, Seq<Seq<char>>>) {
    let r = rows(fs, b, t);
    let i = selected_index(r, b.selected_path);
    if i >= r.len() {
        (b, t, c)
    } else {
        match r[i].kind {
            TreeEntryKind::Directory { expanded } => (
                BrowserView {
                    expanded_dirs: if expanded {
                        b.expanded_dirs.remove(r[i].path)
                    } else {
                        b.expanded_dirs.insert(r[i].path)
                    },
                    ..b
                },
                t,
                c,
            ),
            TreeEntryKind::File => (
                BrowserView { selected_path: Some(r[i].path), focus: Focus::Main, ..b },
                tabs::opened(t, r[i].path, true),
                chained(r, fs, c, i),
            ),
        }
    }
}

/// Opens the selected row.
pub fn open_selected(
    browser: &mut BrowserUi,
    fs: &FsTree,
    tabs: &mut Tabs,
    path_chains: &mut PathChains,
)
    ensures
        (final(browser)@, final(tabs)@, chain_views(final(path_chains).map())) == selection_opened(
            fs@,
            old(browser)@,
            old(tabs)@,
            chain_views(old(path_chains).map()),
        ),
{
    let entries = entries_of(browser, fs, tabs);
    let ghost v = row_views(entries@);
    let i: usize = browser_selected_idx(&entries, &browser.selected_path);
    if i >= entries.len() {
        return;
    }
    assert(v[i as int] == entries[i as int]@);
    match entries[i].kind {
        TreeEntryKind::Directory { expanded } => {
            if expanded {
                browser.expanded_dirs.remove(entries[i].path.as_str());
            } else {
                browser.expanded_dirs.insert(entries[i].path.text.clone());
            }
        },
        TreeEntryKind::File => {
            stash_browser_chain(&entries, fs, path_chains, i);
            open_or_focus_tab(tabs, &entries[i].path, true);
            browser.selected_path = Some(entries[i].path.copy());
            browser.focus = Focus::Main;
        },
    }
}

/// What opening the selected file in the background does.
pub open spec fn selection_previewed(
    fs: FsView,
    b: BrowserView,
    t: TabsView,
    c: Map<Seq<char>, Seq<Seq<char>>>,
) -> (TabsView, Map<Seq<char>, Seq<Seq<char>>>) {
    let r = rows(fs, b, t);
    let i = selected_index(r, b.selected_path);
    if i < r.len() && r[i].kind is File {
        (tabs::opened(t, r[i].path, false), chained(r, fs, c, i))
    } else {
        (t, c)
    }
}

/// Opens the selected file as a preview and leaves the focus where it is.
pub fn open_selected_bg(
    browser: &BrowserUi,
    fs: &FsTree,
    tabs: &mut Tabs,
    path_chains: &mut PathChains,
)
    ensures
        (final(tabs)@, chain_views(final(path_chains).map())) == selection_previewed(
            fs@,
            browser@,
            old(tabs)@,
            chain_views(old(path_chains).map()),
        ),
{
    let entries = entries_of(browser, fs, tabs);
    let ghost v = row_views(entries@);
    let i: usize = browser_selected_idx(&entries, &browser.selected_path);
    if i >= entries.len() {
        return;
    }
    assert(v[i as int] == entries[i as int]@);
    if let TreeEntryKind::File = entries[i].kind {
        stash_browser_chain(&entries, fs, path_chains, i);
        open_or_focus_tab(tabs, &entries[i].path, false);
    }
}

/// What the selection of a row of `r` shows: a file as a preview, a
/// directory closes the preview.
pub open spec fn row_shown(
    r: Seq<RowView>,
    fs: FsView,
    selected: Option<Seq<char>>,
    t: TabsView,
    c: Map<Seq<char>, Seq<Seq<char>>>,
) -> (TabsView, Map<Seq<char>, Seq<Seq<char>>>) {
    let i = selected_index(r, selected);
    if i >= r.len() {
        (t, c)
    } else {
        match r[i].kind {
            TreeEntryKind::File => (
                tabs::opened(t, r[i].path, false),
                chained(r, fs, c, i),
            ),
            TreeEntryKind::Directory { .. } => (tabs::preview_closed(t), c),
        }
    }
}

fn preview_current_selection(
    browser: &BrowserUi,
    entries: &Vec<TreeEntry>,
    fs: &FsTree,
    tabs: &mut Tabs,
    path_chains: &mut PathChains,
)
    ensures
        (final(tabs)@, chain_views(final(path_chains).map())) == row_shown(
            row_views(entries@),
            fs@,
            browser@.selected_path,
            old(tabs)@,
            chain_views(old(path_chains).map()),
        ),
{
    let ghost v = row_views(entries@);
    let i: usize = browser_selected_idx(entries, &browser.selected_path);
    if i >= entries.len() {
        return;
    }
    assert(v[i as int] == entries[i as int]@);
    match entries[i].kind {
        TreeEntryKind::File => {
            stash_browser_chain(entries, fs, path_chains, i);
            open_or_focus_tab(tabs, &entries[i].path, false);
        },
        TreeEntryKind::Directory { .. } => close_preview(tabs),
    }
}

/// The index that a move from `cur` by `delta` leads to among `n` rows.
pub open spec fn stepped(cur: int, delta: int, n: int) -> int {
    if cur + delta < 0 {
        0
    } else if cur + delta >= n {
        n - 1
    } else {
        cur + delta
    }
}

/// What moving the selection does.
pub open spec fn selection_moved(
    fs: FsView,
    b: BrowserView,
    t: TabsView,
    c: Map<Seq<char>, Seq<Seq<char>>>,
    delta: int,
) -> (BrowserView, TabsView, Map<Seq<char>, Seq<Seq<char>>>) {
    let r = rows(fs, b, t);
    if r.len() == 0 {
        (BrowserView { selected_path: None, ..b }, t, c)
    } else {
        let i = stepped(selected_index(r, b.selected_path), delta, r.len() as int);
        let (t2, c2) = row_shown(r, fs, Some(r[i].path), t, c);
        (BrowserView { selected_path: Some(r[i].path), ..b }, t2, c2)
    }
}

fn step_index(cur: usize, delta: isize, n: usize) -> (i: usize)
    requires
        cur < n,
    ensures
        i == stepped(cur as int, delta as int, n as int),
        i < n,
{
    if delta >= 0 {
        let d: usize = delta as usize;
        if d < n - cur {
            cur + d
        } else {
            n - 1
        }
    } else {
        let back: usize = (-(delta + 1)) as usize;
        if back < cur {
            cur - back - 1
        } else {
            0
        }
    }
}

/// Moves the selection by `delta` rows, as far as there are rows, and shows
/// what is selected.
pub fn move_selection(
    browser: &mut BrowserUi,
    fs: &FsTree,
    tabs: &mut Tabs,
    path_chains: &mut PathChains,
    delta: isize,
)
    ensures
        (final(browser)@, final(tabs)@, chain_views(final(path_chains).map())) == selection_moved(
            fs@,
            old(browser)@,
            old(tabs)@,
            chain_views(old(path_chains).map()),
            delta as int,
        ),
{
    let entries = entries_of(browser, fs, tabs);
    let ghost v = row_views(entries@);
    if entries.len() == 0 {
        browser.selected_path = None;
        return;
    }
    let cur: usize = browser_selected_idx(&entries, &browser.selected_path);
    let i: usize = step_index(cur, delta, entries.len());
    assert(v[i as int] == entries[i as int]@);
    browser.selected_path = Some(entries[i].path.copy());
    preview_current_selection(browser, &entries, fs, tabs, path_chains);
}

/// The rows that a page move crosses, as a move.
pub open spec fn page_delta(page_rows: int, down: bool) -> int {
    let n = if page_rows <= isize::MAX {
        page_rows
    } else {
        isize::MAX as int
    };
    if down {
        n
    } else {
        -n
    }
}

/// Moves the selection by a page.
pub fn page_selection(
    browser: &mut BrowserUi,
    fs: &FsTree,
    tabs: &mut Tabs,
    path_chains: &mut PathChains,
    page_rows: usize,
    down: bool,
)
    ensures
        (final(browser)@, final(tabs)@, chain_views(final(path_chains).map())) == selection_moved(
            fs@,
            old(browser)@,
            old(tabs)@,
            chain_views(old(path_chains).map()),
            page_delta(page_rows as int, down),
        ),
{
    let n: isize = if page_rows <= isize::MAX as usize {
        page_rows as isize
    } else {
        isize::MAX
    };
    move_selection(browser, fs, tabs, path_chains, if down { n } else { -n });
}

/// What selecting the first or the last row does.
pub open spec fn end_selected(
    fs: FsView,
    b: BrowserView,
    t: TabsView,
    c: Map<Seq<char>, Seq<Seq<char>>>,
    last: bool,
) -> (BrowserView, TabsView, Map<Seq<char>, Seq<Seq<char>>>) {
    let r = rows(fs, b, t);
    let p = if r.len() == 0 {
        None
    } else if last {
        Some(r[r.len() - 1].path)
    } else {
        Some(r[0].path)
    };
    let (t2, c2) = row_shown(r, fs, p, t, c);
    (BrowserView { selected_path: p, ..b }, t2, c2)
}

/// Selects the first row.
pub fn select_first(
    browser: &mut BrowserUi,
    fs: &FsTree,
    tabs: &mut Tabs,
    path_chains: &mut PathChains,
)
    ensures
        (final(browser)@, final(tabs)@, chain_views(final(path_chains).map())) == end_selected(
            fs@,
            old(browser)@,
            old(tabs)@,
            chain_views(old(path_chains).map()),
            false,
        ),
{
    let entries = entries_of(browser, fs, tabs);
    let ghost v = row_views(entries@);
    if entries.len() > 0 {
        assert(v[0] == entries[0]@);
        browser.selected_path = Some(entries[0].path.copy());
    } else {
        browser.selected_path = None;
    }
    preview_current_selection(browser, &entries, fs, tabs, path_chains);
}

/// Selects the last row.
pub fn select_last(
    browser: &mut BrowserUi,
    fs: &FsTree,
    tabs: &mut Tabs,
    path_chains: &mut PathChains,
)
    ensures
        (final(browser)@, final(tabs)@, chain_views(final(path_chains).map())) == end_selected(
            fs@,
            old(browser)@,
            old(tabs)@,
            chain_views(old(path_chains).map()),
            true,
        ),
{
    let entries = entries_of(browser, fs, tabs);
    let ghost v = row_views(entries@);
    let n: usize = entries.len();
    if n > 0 {
        assert(v[n - 1] == entries[n - 1]@);
        browser.selected_path = Some(entries[n - 1].path.copy());
    } else {
        browser.selected_path = None;
    }
    preview_current_selection(browser, &entries, fs, tabs, path_chains);
}

/// The order of rows that are drawn in place.
pub fn _dummy_ordering() -> (r: std::cmp::Ordering)
    ensures
        r is Equal,
{
    std::cmp::Ordering::Equal
}

// ---------------------------------------------------------------------
// Laws
// ---------------------------------------------------------------------

/// Directories are listed before files, and entries of one kind by their
/// names.
pub proof fn directories_are_listed_first(s: Seq<DirView>, i: int, j: int)
    requires
        0 <= i < j < s.len(),
    ensures
        ({
            let q = in_order(s);
            &&& q.to_multiset() == s.to_multiset()
            &&& q.len() == s.len()
            &&& q[j].kind is Directory ==> q[i].kind is Directory
            &&& q[i].kind == q[j].kind ==> q[i].name == q[j].name || paths::path_lt(
                q[i].name,
                q[j].name,
            )
        }),
{
    in_order_is_sorted(s);
    let q = in_order(s);
    assert(!listed_before(q[j], q[i]));
    paths::path_order_is_total(q[i].name, q[j].name);
}

/// The row stands for an entry of a listing: it has its path and name, and
/// a directory is open if it was expanded or the active file lies in it.
pub open spec fn stands_for(r: RowView, b: BrowserView, active: Option<Seq<char>>, d: DirView, depth: int) -> bool {
    let open = b.expanded_dirs.contains(d.path) || (active is Some && active->0 != d.path
        && paths::under(active->0, d.path));
    &&& r.path == d.path
    &&& r.name == d.name
    &&& r.depth == depth
    &&& d.kind is File ==> r.kind is File
    &&& d.kind is Directory ==> r.kind == (TreeEntryKind::Directory { expanded: open })
}

proof fn lemma_entry_shown(
    fs: FsView,
    b: BrowserView,
    active: Option<Seq<char>>,
    list: Seq<DirView>,
    depth: int,
    fuel: nat,
    n: int,
    k: int,
)
    requires
        0 <= k < n <= list.len(),
    ensures
        ({
            let r = rows_of_list(fs, b, active, list, depth, fuel, n);
            let below = rows_below(fs, b, active, list[k].path, depth + 1, fuel);
            exists|j: int|
                0 <= j < r.len() && #[trigger] stands_for(r[j], b, active, list[k], depth) && (
                r[j].kind == (TreeEntryKind::Directory { expanded: true }) ==> j + 1 + below.len()
                    <= r.len() && r.subrange(j + 1, j + 1 + below.len()) == below)
        }),
    decreases n,
{
    let r = rows_of_list(fs, b, active, list, depth, fuel, n);
    let rest = rows_of_list(fs, b, active, list, depth, fuel, n - 1);
    let below = rows_below(fs, b, active, list[k].path, depth + 1, fuel);
    if k < n - 1 {
        lemma_entry_shown(fs, b, active, list, depth, fuel, n - 1, k);
        let j = choose|j: int|
            0 <= j < rest.len() && #[trigger] stands_for(rest[j], b, active, list[k], depth) && (
            rest[j].kind == (TreeEntryKind::Directory { expanded: true }) ==> j + 1 + below.len()
                <= rest.len() && rest.subrange(j + 1, j + 1 + below.len()) == below);
        assert(r[j] == rest[j]);
        assert(stands_for(r[j], b, active, list[k], depth));
        if rest[j].kind == (TreeEntryKind::Directory { expanded: true }) {
            assert(r.subrange(j + 1, j + 1 + below.len()) =~= rest.subrange(
                j + 1,
                j + 1 + below.len(),
            ));
        }
    } else {
        let j = rest.len() as int;
        assert(r[j] == row_of(b, active, list[k], depth));
        assert(stands_for(r[j], b, active, list[k], depth));
        if r[j].kind == (TreeEntryKind::Directory { expanded: true }) {
            assert(r.subrange(j + 1, j + 1 + below.len()) =~= below);
        }
    }
}

/// A directory that is shown has a row for each of its entries, and behind
/// the row of one that is open come the rows of what that one holds.
pub proof fn a_directory_is_shown_with_what_it_holds(
    fs: FsView,
    b: BrowserView,
    active: Option<Seq<char>>,
    dir: Seq<char>,
    depth: int,
    fuel: nat,
    x: int,
)
    requires
        fuel > 0,
        fs.dirs.dom().contains(dir),
        0 <= x < fs.dirs[dir].len(),
    ensures
        ({
            let r = rows_below(fs, b, active, dir, depth, fuel);
            let d = fs.dirs[dir][x];
            let below = rows_below(fs, b, active, d.path, depth + 1, (fuel - 1) as nat);
            exists|j: int|
                0 <= j < r.len() && #[trigger] stands_for(r[j], b, active, d, depth) && (r[j].kind
                    == (TreeEntryKind::Directory { expanded: true }) ==> j + 1 + below.len()
                    <= r.len() && r.subrange(j + 1, j + 1 + below.len()) == below)
        }),
{
    let s = fs.dirs[dir];
    let q = in_order(s);
    in_order_is_sorted(s);
    s.to_multiset_ensures();
    q.to_multiset_ensures();
    assert(s.contains(s[x]));
    assert(s.to_multiset().count(s[x]) > 0);
    assert(q.contains(s[x]));
    let k = choose|k: int| 0 <= k < q.len() && q[k] == s[x];
    lemma_entry_shown(fs, b, active, q, depth, (fuel - 1) as nat, q.len() as int, k);
    let r = rows_below(fs, b, active, dir, depth, fuel);
    let below = rows_below(fs, b, active, s[x].path, depth + 1, (fuel - 1) as nat);
    let j = choose|j: int|
        0 <= j < r.len() && #[trigger] stands_for(r[j], b, active, q[k], depth) && (r[j].kind == (
        TreeEntryKind::Directory { expanded: true }) ==> j + 1 + below.len() <= r.len()
            && r.subrange(j + 1, j + 1 + below.len()) == below);
    assert(stands_for(r[j], b, active, s[x], depth));
}

proof fn lemma_rows_come_from(
    fs: FsView,
    b: BrowserView,
    active: Option<Seq<char>>,
    list: Seq<DirView>,
    depth: int,
    fuel: nat,
    n: int,
)
    requires
        0 <= n <= list.len(),
    ensures
        ({
            let r = rows_of_list(fs, b, active, list, depth, fuel, n);
            forall|j: int|
                0 <= j < r.len() ==> (#[trigger] r[j]).depth >= depth && (r[j].depth == depth
                    ==> exists|k: int|
                    0 <= k < n && #[trigger] stands_for(r[j], b, active, list[k], depth))
        }),
    decreases fuel, 1nat, n,
{
    if n > 0 {
        lemma_rows_come_from(fs, b, active, list, depth, fuel, n - 1);
        let r = rows_of_list(fs, b, active, list, depth, fuel, n);
        let rest = rows_of_list(fs, b, active, list, depth, fuel, n - 1);
        let d = list[n - 1];
        let below = rows_below(fs, b, active, d.path, depth + 1, fuel);
        lemma_below_is_deeper(fs, b, active, d.path, depth + 1, fuel);
        assert forall|j: int| 0 <= j < r.len() implies (#[trigger] r[j]).depth >= depth && (
        r[j].depth == depth ==> exists|k: int|
            0 <= k < n && #[trigger] stands_for(r[j], b, active, list[k], depth)) by {
            if j < rest.len() {
                assert(r[j] == rest[j]);
                if r[j].depth == depth {
                    let k = choose|k: int|
                        0 <= k < n - 1 && #[trigger] stands_for(rest[j], b, active, list[k], depth);
                    assert(stands_for(r[j], b, active, list[k], depth));
                }
            } else if j == rest.len() {
                assert(r[j] == row_of(b, active, d, depth));
                assert(stands_for(r[j], b, active, list[n - 1], depth));
            } else {
                assert(r[j] == below[j - rest.len() - 1]);
            }
        }
    }
}

proof fn lemma_below_is_deeper(
    fs: FsView,
    b: BrowserView,
    active: Option<Seq<char>>,
    dir: Seq<char>,
    depth: int,
    fuel: nat,
)
    ensures
        ({
            let r = rows_below(fs, b, active, dir, depth, fuel);
            forall|j: int| 0 <= j < r.len() ==> (#[trigger] r[j]).depth >= depth
        }),
    decreases fuel, 0nat, 0int,
{
    if fuel > 0 && fs.dirs.dom().contains(dir) {
        let q = in_order(fs.dirs[dir]);
        lemma_rows_come_from(fs, b, active, q, depth, (fuel - 1) as nat, q.len() as int);
    }
}

/// No row at the depth of a directory's entries stands for anything else.
pub proof fn no_row_is_made_up(
    fs: FsView,
    b: BrowserView,
    active: Option<Seq<char>>,
    dir: Seq<char>,
    depth: int,
    fuel: nat,
    j: int,
)
    requires
        0 <= j < rows_below(fs, b, active, dir, depth, fuel).len(),
        rows_below(fs, b, active, dir, depth, fuel)[j].depth == depth,
    ensures
        fs.dirs.dom().contains(dir),
        exists|x: int|
            0 <= x < fs.dirs[dir].len() && #[trigger] stands_for(
                rows_below(fs, b, active, dir, depth, fuel)[j],
                b,
                active,
                fs.dirs[dir][x],
                depth,
            ),
{
    let r = rows_below(fs, b, active, dir, depth, fuel);
    let s = fs.dirs[dir];
    let q = in_order(s);
    lemma_rows_come_from(fs, b, active, q, depth, (fuel - 1) as nat, q.len() as int);
    let k = choose|k: int| 0 <= k < q.len() && #[trigger] stands_for(r[j], b, active, q[k], depth);
    in_order_is_sorted(s);
    s.to_multiset_ensures();
    q.to_multiset_ensures();
    assert(q.contains(q[k]));
    assert(q.to_multiset().count(q[k]) > 0);
    assert(s.contains(q[k]));
    let x = choose|x: int| 0 <= x < s.len() && s[x] == q[k];
    assert(stands_for(r[j], b, active, s[x], depth));
}

/// The row `i` is the selected one.
pub open spec fn is_selected(r: Seq<RowView>, b: BrowserView, i: int) -> bool {
    &&& 0 <= i < r.len()
    &&& b.selected_path == Some(r[i].path)
    &&& forall|k: int| 0 <= k < i ==> (#[trigger] r[k]).path != r[i].path
}

proof fn lemma_selected(r: Seq<RowView>, i: int)
    requires
        0 <= i < r.len(),
        forall|k: int| 0 <= k < i ==> (#[trigger] r[k]).path != r[i].path,
    ensures
        selected_index(r, Some(r[i].path)) == i,
{
    assert forall|k: int| 0 <= k < i implies !row_at(r[i].path)(#[trigger] r[k]) by {}
    seqs::lemma_first_is(r, row_at(r[i].path), 0, i);
}

/// Moving the selection goes that many rows down or up, as far as there are
/// rows; a file that is reached is previewed, a directory ends the preview.
pub proof fn the_selection_moves_by_rows(
    fs: FsView,
    b: BrowserView,
    t: TabsView,
    c: Map<Seq<char>, Seq<Seq<char>>>,
    delta: int,
    i: int,
    j: int,
)
    requires
        is_selected(rows(fs, b, t), b, i),
        j == i + delta || (i + delta < 0 && j == 0) || (i + delta >= rows(fs, b, t).len() && j
            == rows(fs, b, t).len() - 1),
        0 <= j < rows(fs, b, t).len(),
        forall|k: int| 0 <= k < j ==> (#[trigger] rows(fs, b, t)[k]).path != rows(fs, b, t)[j].path,
    ensures
        ({
            let r = rows(fs, b, t);
            let (b2, t2, c2) = selection_moved(fs, b, t, c, delta);
            &&& b2 == (BrowserView { selected_path: Some(r[j].path), ..b })
            &&& r[j].kind is File ==> t2 == tabs::opened(t, r[j].path, false)
            &&& !(r[j].kind is File) ==> t2 == tabs::preview_closed(t) && c2 == c
        }),
{
    let r = rows(fs, b, t);
    lemma_selected(r, i);
    lemma_selected(r, j);
}

/// Home and end select the first and the last row.
pub proof fn the_ends_are_selected(
    fs: FsView,
    b: BrowserView,
    t: TabsView,
    c: Map<Seq<char>, Seq<Seq<char>>>,
)
    requires
        rows(fs, b, t).len() > 0,
    ensures
        ({
            let r = rows(fs, b, t);
            &&& end_selected(fs, b, t, c, false).0.selected_path == Some(r[0].path)
            &&& end_selected(fs, b, t, c, true).0.selected_path == Some(r[r.len() - 1].path)
        }),
{
}

/// Right opens a closed directory and left closes an open one; on a file
/// left goes to the nearest open directory above it and closes that.
pub proof fn directories_open_and_close(fs: FsView, b: BrowserView, t: TabsView, i: int)
    requires
        is_selected(rows(fs, b, t), b, i),
    ensures
        ({
            let r = rows(fs, b, t);
            let o = expanded(fs, b, t);
            let c = collapsed(fs, b, t);
            let open = r[i].kind == (TreeEntryKind::Directory { expanded: true });
            let closed = r[i].kind == (TreeEntryKind::Directory { expanded: false });
            &&& closed ==> o == (BrowserView {
                expanded_dirs: b.expanded_dirs.insert(r[i].path),
                ..b
            })
            &&& !closed ==> o == b
            &&& open ==> c == (BrowserView {
                expanded_dirs: b.expanded_dirs.remove(r[i].path),
                ..b
            })
            &&& closed ==> c == b
            &&& r[i].kind is File ==> c == b || exists|p: int|
                0 <= p < i && (#[trigger] r[p]).depth < r[i].depth && r[p].kind == (
                TreeEntryKind::Directory { expanded: true }) && c == (BrowserView {
                    expanded_dirs: b.expanded_dirs.remove(r[p].path),
                    selected_path: Some(r[p].path),
                    ..b
                }) && forall|k: int|
                    p < k < i ==> !((#[trigger] r[k]).depth < r[i].depth && r[k].kind == (
                    TreeEntryKind::Directory { expanded: true }))
            &&& r[i].kind is File && (exists|p: int|
                0 <= p < i && (#[trigger] r[p]).depth < r[i].depth && r[p].kind == (
                TreeEntryKind::Directory { expanded: true })) ==> c.selected_path
                != b.selected_path
        }),
{
    let r = rows(fs, b, t);
    lemma_selected(r, i);
    assert forall|k: int| 0 <= k < i implies !row_at(r[i].path)(#[trigger] r[k]) by {}
    seqs::lemma_first_is(r, row_at(r[i].path), 0, i);
    lemma_ancestor(r, r[i].depth, i);
}

proof fn lemma_ancestor(r: Seq<RowView>, depth: int, n: int)
    requires
        0 <= n <= r.len(),
    ensures
        match open_ancestor(r, depth, n) {
            Some(p) => 0 <= p < n && r[p].depth < depth && r[p].kind == (TreeEntryKind::Directory {
                expanded: true,
            }) && forall|k: int|
                p < k < n ==> !((#[trigger] r[k]).depth < depth && r[k].kind == (
                TreeEntryKind::Directory { expanded: true })),
            None => forall|k: int|
                0 <= k < n ==> !((#[trigger] r[k]).depth < depth && r[k].kind == (
                TreeEntryKind::Directory { expanded: true })),
        },
    decreases n,
{
    if n > 0 {
        lemma_ancestor(r, depth, n - 1);
    }
}

/// Enter opens the selected file for good and goes to it; a directory it
/// opens or closes.
pub proof fn enter_opens_the_selection(
    fs: FsView,
    b: BrowserView,
    t: TabsView,
    c: Map<Seq<char>, Seq<Seq<char>>>,
    i: int,
)
    requires
        is_selected(rows(fs, b, t), b, i),
    ensures
        ({
            let r = rows(fs, b, t);
            let (b2, t2, c2) = selection_opened(fs, b, t, c);
            let (t3, c3) = selection_previewed(fs, b, t, c);
            &&& r[i].kind is File ==> t2 == tabs::opened(t, r[i].path, true) && b2 == (BrowserView {
                focus: Focus::Main,
                ..b
            }) && t3 == tabs::opened(t, r[i].path, false)
            &&& r[i].kind == (TreeEntryKind::Directory { expanded: true }) ==> t2 == t && b2 == (
            BrowserView { expanded_dirs: b.expanded_dirs.remove(r[i].path), ..b }) && t3 == t
            &&& r[i].kind == (TreeEntryKind::Directory { expanded: false }) ==> t2 == t && b2 == (
            BrowserView { expanded_dirs: b.expanded_dirs.insert(r[i].path), ..b }) && t3 == t
        }),
{
    lemma_selected(rows(fs, b, t), i);
}

/// The panel is shown or hidden, and hiding it takes the focus from it; the
/// focus goes to the panel, which is then shown, or back.
pub proof fn the_panel_is_shown_and_hidden(b: BrowserView)
    ensures
        panel_toggled(b).visible == !b.visible,
        b.visible ==> panel_toggled(b).focus is Main,
        !b.visible ==> panel_toggled(b).focus == b.focus,
        focus_toggled(b).focus is Main <==> b.focus is Side,
        b.focus is Main ==> focus_toggled(b).visible,
        b.focus is Side ==> focus_toggled(b).visible == b.visible,
        all_collapsed(b).expanded_dirs == Set::<Seq<char>>::empty(),
        all_collapsed(b).selected_path is None,
        all_collapsed(b).visible == b.visible,
        all_collapsed(b).focus == b.focus,
{
}

proof fn lemma_parent(r: Seq<RowView>, depth: int, n: int, p: int)
    requires
        0 <= p < n <= r.len(),
        r[p].depth + 1 == depth,
        forall|k: int| p < k < n ==> (#[trigger] r[k]).depth + 1 != depth,
    ensures
        parent_row(r, depth, n) == Some(p),
    decreases n,
{
    if n - 1 > p {
        assert(r[n - 1].depth + 1 != depth);
        lemma_parent(r, depth, n - 1, p);
    }
}

/// Opening a file from the tree remembers by which path it was reached: its
/// name below the directory under which it is shown.
pub proof fn the_way_to_a_file_is_remembered(
    fs: FsView,
    b: BrowserView,
    t: TabsView,
    c: Map<Seq<char>, Seq<Seq<char>>>,
    i: int,
    p: int,
    dir: Seq<char>,
)
    requires
        is_selected(rows(fs, b, t), b, i),
        rows(fs, b, t)[i].kind is File,
        ({
            let r = rows(fs, b, t);
            ||| r[i].depth == 0 && fs.root == Some(dir)
            ||| r[i].depth != 0 && 0 <= p < i && r[p].depth + 1 == r[i].depth && dir == r[p].path
                && forall|k: int| p < k < i ==> (#[trigger] r[k]).depth + 1 != r[i].depth
        }),
    ensures
        ({
            let r = rows(fs, b, t);
            let known = c.insert(r[i].path, chain_of(fs, joined(dir, r[i].name)));
            &&& selection_opened(fs, b, t, c).2 == known
            &&& selection_previewed(fs, b, t, c).1 == known
        }),
{
    let r = rows(fs, b, t);
    lemma_selected(r, i);
    if r[i].depth != 0 {
        lemma_parent(r, r[i].depth, i, p);
    }
}

} // verus!
