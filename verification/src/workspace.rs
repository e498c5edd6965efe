//! Keeping up with what others do to the files of the workspace.

use vstd::prelude::*;

use crate::browser;
use crate::browser::{DirEntry, DirEntryKind, DirView, FsTree, FsView};
use crate::buffers;
use crate::buffers::{BufferEdits, EditsView};
use crate::chars::{same_text, substring};
use crate::columns::Cursor;
use crate::edits;
use crate::edits::{bump, bump_u64, hash_rope, BufferView};
use crate::listing;
use crate::listing::sorted_keys;
use crate::maps::PathMap;
use crate::paths;
use crate::paths::{after_last_slash, is_under, CanonPath};
use crate::replace_one;
use crate::replace_one::settle;
use crate::seqs;
use crate::text;
use crate::text::rope_string;
use crate::truth;

verus! {

// ---------------------------------------------------------------------
// Paths of version control
// ---------------------------------------------------------------------

/// The names along a path.
pub open spec fn components(p: Seq<char>) -> Seq<Seq<char>>
    decreases p.len(),
{
    if p.len() == 0 {
        seq![]
    } else {
        let k = paths::last_slash(p, p.len() as int);
        let name = p.subrange(k + 1, p.len() as int);
        let before = if 0 <= k < p.len() {
            components(p.subrange(0, k))
        } else {
            seq![]
        };
        if name.len() == 0 || name == seq!['.'] {
            before
        } else {
            before.push(name)
        }
    }
}

fn split_path(p: &str) -> (v: Vec<String>)
    ensures
        buffers::string_views(v@) == components(p@),
    decreases p@.len(),
{
    let n: usize = p.unicode_len();
    if n == 0 {
        let v: Vec<String> = Vec::new();
        assert(buffers::string_views(v@) =~= seq![]);
        return v;
    }
    let k: usize = after_last_slash(p);
    let name = substring(p, k, n);
    let mut v: Vec<String> = if k > 0 {
        let head = substring(p, 0, k - 1);
        split_path(head.as_str())
    } else {
        Vec::new()
    };
    let ghost before = buffers::string_views(v@);
    assert(k == 0 ==> before =~= seq![]);
    let m: usize = name.as_str().unicode_len();
    if m == 0 || (m == 1 && name.as_str().get_char(0) == '.') {
        proof {
            if m == 1 {
                assert(name@ =~= seq!['.']);
            }
        }
        return v;
    }
    proof {
        if name@ == seq!['.'] {
            assert(name@[0] == '.');
        }
    }
    v.push(name);
    assert(buffers::string_views(v@) =~= before.push(name@));
    v
}

pub open spec fn named(s: Seq<char>) -> spec_fn(Seq<char>) -> bool {
    |n: Seq<char>| n == s
}

/// The path lies in a directory of version control.
pub open spec fn git_internal(p: Seq<char>) -> bool {
    seqs::first_index(components(p), named(".git"@)) is Some
}

/// The path is a file whose change means that version control was used:
/// the index, the head or a reference.
pub open spec fn git_sentinel(p: Seq<char>) -> bool {
    let c = components(p);
    match seqs::first_index(c, named(".git"@)) {
        None => false,
        Some(i) => if i + 1 >= c.len() {
            false
        } else if c[i + 1] == "index"@ || c[i + 1] == "HEAD"@ {
            i + 2 == c.len()
        } else {
            c[i + 1] == "refs"@ && i + 2 < c.len()
        },
    }
}

fn find_name(v: &Vec<String>, name: &str) -> (r: Option<usize>)
    ensures
        match r {
            Some(i) => seqs::first_index(buffers::string_views(v@), named(name@)) == Some(
                i as int,
            ) && i < v.len(),
            None => seqs::first_index(buffers::string_views(v@), named(name@)) is None,
        },
{
    let ghost q = buffers::string_views(v@);
    let mut i: usize = 0;
    while i < v.len()
        invariant
            i <= v.len(),
            q == buffers::string_views(v@),
            forall|j: int| 0 <= j < i ==> !named(name@)(#[trigger] q[j]),
        decreases v.len() - i,
    {
        assert(q[i as int] == v[i as int]@);
        if same_text(v[i].as_str(), name) {
            proof {
                seqs::lemma_first_is(q, named(name@), 0, i as int);
            }
            return Some(i);
        }
        i = i + 1;
    }
    proof {
        seqs::lemma_first_none(q, named(name@), 0);
    }
    None
}

/// Whether a path lies in a directory of version control.
pub fn is_git_internal(path: &CanonPath) -> (r: bool)
    ensures
        r == git_internal(path@),
{
    let v = split_path(path.as_str());
    find_name(&v, ".git").is_some()
}

/// Whether the change of a file means that version control was used.
pub fn is_git_sentinel(path: &CanonPath) -> (r: bool)
    ensures
        r == git_sentinel(path@),
{
    let v = split_path(path.as_str());
    match find_name(&v, ".git") {
        None => false,
        Some(i) => {
            let n: usize = v.len();
            if i >= n - 1 {
                return false;
            }
            assert(components(path@)[i + 1] == v[i + 1]@);
            let child = v[i + 1].as_str();
            if same_text(child, "index") || same_text(child, "HEAD") {
                i + 1 == n - 1
            } else {
                same_text(child, "refs") && i + 1 < n - 1
            }
        },
    }
}

/// Every sentinel lies in a directory of version control.
pub proof fn sentinels_are_internal(p: Seq<char>)
    ensures
        git_sentinel(p) ==> git_internal(p),
{
}

// ---------------------------------------------------------------------
// Listings
// ---------------------------------------------------------------------

/// A change of a file that was watched.
pub struct WatchEvent {
    pub path: CanonPath,
    pub created: bool,
    pub removed: bool,
    /// What the path is now, if it can be found out.
    pub kind: Option<DirEntryKind>,
}

#[verifier::ext_equal]
pub struct EventView {
    pub path: Seq<char>,
    pub created: bool,
    pub removed: bool,
    pub kind: Option<DirEntryKind>,
}

impl View for WatchEvent {
    type V = EventView;

    open spec fn view(&self) -> EventView {
        EventView {
            path: self.path@,
            created: self.created,
            removed: self.removed,
            kind: self.kind,
        }
    }
}

pub open spec fn event_views(s: Seq<WatchEvent>) -> Seq<EventView> {
    Seq::new(s.len(), |i: int| s[i]@)
}

/// The first `n` entries of a listing but for those of a path.
pub open spec fn others(s: Seq<DirView>, path: Seq<char>, n: int) -> Seq<DirView>
    decreases n,
{
    if n <= 0 || n > s.len() {
        seq![]
    } else if s[n - 1].path == path {
        others(s, path, n - 1)
    } else {
        others(s, path, n - 1).push(s[n - 1])
    }
}

/// What is known, without a directory and all below it.
pub open spec fn subtree_dropped(fs: FsView, root: Seq<char>) -> FsView {
    FsView {
        dirs: Map::new(
            |k: Seq<char>| fs.dirs.dom().contains(k) && !paths::under(k, root),
            |k: Seq<char>| fs.dirs[k],
        ),
        failed: fs.failed.filter(|k: Seq<char>| !paths::under(k, root)),
        ..fs
    }
}

/// Forgets what is known of a directory and of all below it.
pub fn invalidate_subtree(fs: &mut FsTree, root: &CanonPath)
    ensures
        final(fs)@ == subtree_dropped(old(fs)@, root@),
{
    let ghost fs0 = fs@;
    let ghost d0 = fs.dir_contents.map();
    let keys = fs.dir_contents.keys();
    let mut i: usize = 0;
    while i < keys.len()
        invariant
            i <= keys.len(),
            fs@ == (FsView { dirs: fs@.dirs, ..fs0 }),
            forall|k: Seq<char>| #[trigger]
                d0.dom().contains(k) <==> exists|j: int|
                    0 <= j < keys.len() && #[trigger] keys[j]@ == k,
            forall|k: Seq<char>| #[trigger]
                fs.dir_contents.map().dom().contains(k) ==> d0.dom().contains(k)
                    && fs.dir_contents.map()[k] == d0[k],
            forall|k: Seq<char>| #[trigger]
                d0.dom().contains(k) && !paths::under(k, root@)
                    ==> fs.dir_contents.map().dom().contains(k),
            forall|j: int|
                0 <= j < i && paths::under(#[trigger] keys[j]@, root@)
                    ==> !fs.dir_contents.map().dom().contains(keys[j]@),
        decreases keys.len() - i,
    {
        if is_under(keys[i].as_str(), root.as_str()) {
            let _ = fs.dir_contents.remove(keys[i].as_str());
        }
        i = i + 1;
    }
    assert(fs@.dirs =~= subtree_dropped(fs0, root@).dirs) by {
        assert forall|k: Seq<char>| #[trigger] fs.dir_contents.map().dom().contains(k) implies
            !paths::under(k, root@) by {
            assert(d0.dom().contains(k));
            let j = choose|j: int| 0 <= j < keys.len() && #[trigger] keys[j]@ == k;
        }
    }
    let ghost f0 = fs.failed_dirs@;
    let ghost dirs1 = fs@.dirs;
    let members = fs.failed_dirs.members();
    let mut i: usize = 0;
    while i < members.len()
        invariant
            i <= members.len(),
            fs@ == (FsView { dirs: dirs1, failed: fs@.failed, ..fs0 }),
            fs@.failed == fs.failed_dirs@,
            forall|k: Seq<char>| #[trigger]
                f0.contains(k) <==> exists|j: int|
                    0 <= j < members.len() && #[trigger] members[j]@ == k,
            forall|k: Seq<char>| #[trigger] fs.failed_dirs@.contains(k) ==> f0.contains(k),
            forall|k: Seq<char>| #[trigger]
                f0.contains(k) && !paths::under(k, root@) ==> fs.failed_dirs@.contains(k),
            forall|j: int|
                0 <= j < i && paths::under(#[trigger] members[j]@, root@)
                    ==> !fs.failed_dirs@.contains(members[j]@),
        decreases members.len() - i,
    {
        if is_under(members[i].as_str(), root.as_str()) {
            fs.failed_dirs.remove(members[i].as_str());
        }
        i = i + 1;
    }
    assert(fs@.failed =~= subtree_dropped(fs0, root@).failed) by {
        assert forall|k: Seq<char>| #[trigger] fs.failed_dirs@.contains(k) implies !paths::under(
            k,
            root@,
        ) by {
            assert(f0.contains(k));
            let j = choose|j: int| 0 <= j < members.len() && #[trigger] members[j]@ == k;
        }
    }
    assert(fs@ =~= subtree_dropped(fs0, root@));
}

/// The failures without those of a path and of the directories above it,
/// up to `stop`.
pub open spec fn failures_cleared(f: Set<Seq<char>>, p: Seq<char>, stop: Option<Seq<char>>) -> Set<
    Seq<char>,
>
    decreases p.len(),
{
    let f2 = f.remove(p);
    if Some(p) == stop {
        f2
    } else {
        match paths::parent_of(p) {
            None => f2,
            Some(q) => if q.len() < p.len() {
                failures_cleared(f2, q, stop)
            } else {
                f2
            },
        }
    }
}

/// Forgets the failures to list a path and the directories above it, up to
/// the root of the workspace.
pub fn clear_ancestor_failures(fs: &mut FsTree, path: &CanonPath)
    ensures
        final(fs)@ == (FsView {
            failed: failures_cleared(old(fs)@.failed, path@, old(fs)@.root),
            ..old(fs)@
        }),
{
    let ghost fs0 = fs@;
    let mut cur = path.copy();
    loop
        invariant
            fs0 == old(fs)@,
            fs@ == (FsView { failed: fs@.failed, ..fs0 }),
            failures_cleared(fs0.failed, path@, fs0.root) == failures_cleared(
                fs@.failed,
                cur@,
                fs0.root,
            ),
        decreases cur@.len(),
    {
        let ghost f1 = fs@.failed;
        fs.failed_dirs.remove(cur.as_str());
        assert(fs@.failed =~= f1.remove(cur@));
        let at_root: bool = match &fs.root {
            Some(r) => same_text(r.as_str(), cur.as_str()),
            None => false,
        };
        if at_root {
            return;
        }
        match cur.parent() {
            None => {
                return;
            },
            Some(q) => {
                if q.as_str().unicode_len() >= cur.as_str().unicode_len() {
                    return;
                }
                cur = q;
            },
        }
    }
}

/// What is known after a path went away.
pub open spec fn entry_removed(fs: FsView, path: Seq<char>) -> FsView {
    match paths::parent_of(path) {
        None => fs,
        Some(dir) => {
            let fs1 = if fs.dirs.dom().contains(dir) {
                FsView {
                    dirs: fs.dirs.insert(
                        dir,
                        others(fs.dirs[dir], path, fs.dirs[dir].len() as int),
                    ),
                    ..fs
                }
            } else {
                fs
            };
            subtree_dropped(fs1, path)
        },
    }
}

pub open spec fn with_path(path: Seq<char>) -> spec_fn(DirView) -> bool {
    |d: DirView| d.path == path
}

/// A path that came is shown: its name is not hidden, its directory is
/// listed and does not list it yet.
pub open spec fn shows_up(fs: FsView, path: Seq<char>) -> bool {
    let name = paths::base_name(path);
    match paths::parent_of(path) {
        None => false,
        Some(dir) => {
            &&& name.len() > 0
            &&& name[0] != '.'
            &&& fs.dirs.dom().contains(dir)
            &&& seqs::first_index(fs.dirs[dir], with_path(path)) is None
        },
    }
}

/// What is known after a path came. A file that is open already was there
/// before.
pub open spec fn entry_created(fs: FsView, e: EditsView, ev: EventView) -> FsView {
    let fs1 = FsView { failed: failures_cleared(fs.failed, ev.path, fs.root), ..fs };
    if (!ev.removed && e.has(ev.path)) || !shows_up(fs1, ev.path) || ev.kind is None {
        fs1
    } else {
        let dir = paths::parent_of(ev.path)->0;
        FsView {
            dirs: fs1.dirs.insert(
                dir,
                fs1.dirs[dir].push(
                    DirView {
                        name: paths::base_name(ev.path),
                        path: ev.path,
                        kind: ev.kind->0,
                    },
                ),
            ),
            ..fs1
        }
    }
}

/// What is known after an event, and whether version control is to be
/// asked again.
pub open spec fn event_applied(fs: FsView, e: EditsView, ev: EventView) -> (FsView, bool) {
    if git_internal(ev.path) {
        (fs, git_sentinel(ev.path))
    } else if paths::parent_of(ev.path) is None {
        (fs, false)
    } else {
        let fs1 = if ev.removed {
            entry_removed(fs, ev.path)
        } else {
            fs
        };
        let fs2 = if ev.created {
            entry_created(fs1, e, ev)
        } else {
            fs1
        };
        (fs2, false)
    }
}

/// What is known after the first `n` events.
pub open spec fn events_applied(fs: FsView, e: EditsView, evs: Seq<EventView>, n: int) -> (
    FsView,
    bool,
)
    decreases n,
{
    if n <= 0 || n > evs.len() {
        (fs, false)
    } else {
        let (fs1, scan) = events_applied(fs, e, evs, n - 1);
        let (fs2, scan2) = event_applied(fs1, e, evs[n - 1]);
        (fs2, scan || scan2)
    }
}

fn set_listing(fs: &mut FsTree, dir: &str, v: Vec<DirEntry>)
    ensures
        final(fs)@ == (FsView {
            dirs: old(fs)@.dirs.insert(dir@, browser::dir_views(v@)),
            ..old(fs)@
        }),
{
    fs.dir_contents.insert(dir.to_owned(), v);
    assert(fs@.dirs =~= old(fs)@.dirs.insert(dir@, browser::dir_views(v@)));
}

fn remove_entry(fs: &mut FsTree, path: &CanonPath)
    ensures
        final(fs)@ == entry_removed(old(fs)@, path@),
{
    let dir = match path.parent() {
        Some(d) => d,
        None => {
            return;
        },
    };
    let ghost fs0 = fs@;
    let mut kept: Vec<DirEntry> = Vec::new();
    let mut listed: bool = false;
    match fs.dir_contents.get(dir.as_str()) {
        Some(v) => {
            listed = true;
            let ghost q = browser::dir_views(v@);
            assert(q == fs0.dirs[dir@]);
            assert(browser::dir_views(kept@) =~= seq![]);
            let mut i: usize = 0;
            while i < v.len()
                invariant
                    i <= v.len(),
                    q == browser::dir_views(v@),
                    browser::dir_views(kept@) == others(q, path@, i as int),
                decreases v.len() - i,
            {
                assert(q[i as int] == v[i as int]@);
                if !same_text(v[i].path.as_str(), path.as_str()) {
                    let ghost k0 = browser::dir_views(kept@);
                    kept.push(v[i].copy());
                    assert(browser::dir_views(kept@) =~= k0.push(q[i as int]));
                }
                i = i + 1;
            }
        },
        None => {},
    }
    if listed {
        set_listing(fs, dir.as_str(), kept);
    }
    invalidate_subtree(fs, path);
}

fn copy_listing(v: &Vec<DirEntry>) -> (r: Vec<DirEntry>)
    ensures
        browser::dir_views(r@) == browser::dir_views(v@),
{
    let mut r: Vec<DirEntry> = Vec::new();
    let mut i: usize = 0;
    while i < v.len()
        invariant
            i <= v.len(),
            r.len() == i,
            forall|j: int| 0 <= j < i ==> (#[trigger] r[j])@ == v[j]@,
        decreases v.len() - i,
    {
        r.push(v[i].copy());
        i = i + 1;
    }
    assert(browser::dir_views(r@) =~= browser::dir_views(v@));
    r
}

fn lists(v: &Vec<DirEntry>, path: &str) -> (r: bool)
    ensures
        r == (seqs::first_index(browser::dir_views(v@), with_path(path@)) is Some),
{
    let ghost q = browser::dir_views(v@);
    let mut i: usize = 0;
    while i < v.len()
        invariant
            i <= v.len(),
            q == browser::dir_views(v@),
            forall|j: int| 0 <= j < i ==> !with_path(path@)(#[trigger] q[j]),
        decreases v.len() - i,
    {
        assert(q[i as int] == v[i as int]@);
        if same_text(v[i].path.as_str(), path) {
            proof {
                seqs::lemma_first_is(q, with_path(path@), 0, i as int);
            }
            return true;
        }
        i = i + 1;
    }
    proof {
        seqs::lemma_first_none(q, with_path(path@), 0);
    }
    false
}

fn create_entry(fs: &mut FsTree, edits: &BufferEdits, ev: &WatchEvent)
    ensures
        final(fs)@ == entry_created(old(fs)@, edits@, ev@),
{
    clear_ancestor_failures(fs, &ev.path);
    let ghost fs1 = fs@;
    if !ev.removed && edits.has(ev.path.as_str()) {
        return;
    }
    let kind = match ev.kind {
        Some(k) => k,
        None => {
            return;
        },
    };
    let dir = match ev.path.parent() {
        Some(d) => d,
        None => {
            return;
        },
    };
    let name = ev.path.file_name();
    if name.as_str().unicode_len() == 0 || name.as_str().get_char(0) == '.' {
        return;
    }
    let mut grown: Vec<DirEntry> = match fs.dir_contents.get(dir.as_str()) {
        Some(v) => {
            assert(browser::dir_views(v@) == fs1.dirs[dir@]);
            if lists(v, ev.path.as_str()) {
                return;
            }
            copy_listing(v)
        },
        None => {
            return;
        },
    };
    let ghost g0 = browser::dir_views(grown@);
    grown.push(DirEntry { name, path: ev.path.copy(), kind });
    assert(browser::dir_views(grown@) =~= g0.push(
        DirView { name: name@, path: ev@.path, kind },
    ));
    set_listing(fs, dir.as_str(), grown);
}

/// Brings the listings up to date with events, and tells whether version
/// control is to be asked again.
pub fn apply_workspace_tree_delta(events: &Vec<WatchEvent>, edits: &BufferEdits, fs: &mut FsTree) -> (
    scan: bool)
    ensures
        (final(fs)@, scan) == events_applied(
            old(fs)@,
            edits@,
            event_views(events@),
            events.len() as int,
        ),
{
    let ghost fs0 = fs@;
    let ghost q = event_views(events@);
    let mut scan: bool = false;
    let mut i: usize = 0;
    while i < events.len()
        invariant
            i <= events.len(),
            q == event_views(events@),
            (fs@, scan) == events_applied(fs0, edits@, q, i as int),
        decreases events.len() - i,
    {
        let ev = &events[i];
        assert(q[i as int] == ev@);
        if is_git_internal(&ev.path) {
            if is_git_sentinel(&ev.path) {
                scan = true;
            }
        } else if ev.path.parent().is_some() {
            if ev.removed {
                remove_entry(fs, &ev.path);
            }
            if ev.created {
                create_entry(fs, edits, ev);
            }
        }
        i = i + 1;
    }
    scan
}

/// A file that is only modified changes no listing.
pub proof fn modifications_change_no_listing(fs: FsView, e: EditsView, ev: EventView)
    requires
        !ev.created,
        !ev.removed,
    ensures
        event_applied(fs, e, ev).0 == fs,
{
}

/// Nothing below a directory that went away is known any more.
pub proof fn removed_directories_are_forgotten(fs: FsView, e: EditsView, ev: EventView, k: Seq<char>)
    requires
        ev.removed,
        !ev.created,
        !git_internal(ev.path),
        paths::parent_of(ev.path) is Some,
        paths::under(k, ev.path),
    ensures
        !event_applied(fs, e, ev).0.dirs.dom().contains(k),
        !event_applied(fs, e, ev).0.failed.contains(k),
{
}

// ---------------------------------------------------------------------
// Watches
// ---------------------------------------------------------------------

/// The watch on the root of the workspace.
pub const WATCHER_ID_ROOT: u64 = 0;

/// The watch on the directory where other editors leave word.
pub const WATCHER_ID_NOTIFY_DIR: u64 = 1;

/// What a watch is about.
pub struct Registration {
    pub path: CanonPath,
    pub recursive: bool,
    pub debounce_ms: u64,
}

#[verifier::ext_equal]
pub struct RegView {
    pub path: Seq<char>,
    pub recursive: bool,
    pub debounce_ms: u64,
}

impl View for Registration {
    type V = RegView;

    open spec fn view(&self) -> RegView {
        RegView { path: self.path@, recursive: self.recursive, debounce_ms: self.debounce_ms }
    }
}

/// A watch that is set.
pub struct Watch {
    pub id: u64,
    pub reg: Registration,
}

pub open spec fn watch_views(s: Seq<Watch>) -> Seq<(u64, RegView)> {
    Seq::new(s.len(), |i: int| (s[i].id, s[i].reg@))
}

pub enum FileWatchCmd {
    Watch { id: u64, path: CanonPath, recursive: bool, debounce_ms: u64 },
    Unwatch { id: u64 },
}

#[verifier::ext_equal]
pub enum CmdView {
    Watch { id: u64, reg: RegView },
    Unwatch { id: u64 },
}

impl View for FileWatchCmd {
    type V = CmdView;

    open spec fn view(&self) -> CmdView {
        match self {
            FileWatchCmd::Watch { id, path, recursive, debounce_ms } => CmdView::Watch {
                id: *id,
                reg: RegView { path: path@, recursive: *recursive, debounce_ms: *debounce_ms },
            },
            FileWatchCmd::Unwatch { id } => CmdView::Unwatch { id: *id },
        }
    }
}

pub open spec fn cmd_views(s: Seq<FileWatchCmd>) -> Seq<CmdView> {
    Seq::new(s.len(), |i: int| s[i]@)
}

pub open spec fn reg_views(m: Map<Seq<char>, Registration>) -> Map<Seq<char>, RegView> {
    Map::new(|k: Seq<char>| m.dom().contains(k), |k: Seq<char>| m[k]@)
}

pub open spec fn on_path(path: Seq<char>) -> spec_fn((u64, RegView)) -> bool {
    |w: (u64, RegView)| w.1.path == path
}

pub open spec fn with_id(id: u64) -> spec_fn((u64, RegView)) -> bool {
    |w: (u64, RegView)| w.0 == id
}

/// The id for a path, and the next free one: a fixed id for the root and
/// for the directory of messages, the one that the path has already, or
/// the next free one.
pub open spec fn watch_id(
    registry: Seq<(u64, RegView)>,
    path: Seq<char>,
    root: Seq<char>,
    notify_dir: Seq<char>,
    next: u64,
) -> (u64, u64) {
    if path == root {
        (WATCHER_ID_ROOT, next)
    } else if path == notify_dir {
        (WATCHER_ID_NOTIFY_DIR, next)
    } else {
        match seqs::first_index(registry, on_path(path)) {
            Some(i) => (registry[i].0, next),
            None => (next, edits::bumped(next)),
        }
    }
}

/// The watch with this id is set as wanted.
pub open spec fn set_already(registry: Seq<(u64, RegView)>, id: u64, reg: RegView) -> bool {
    match seqs::first_index(registry, with_id(id)) {
        Some(i) => registry[i].1 == reg,
        None => false,
    }
}

/// The commands that set the watches for the first `n` paths of `q`, and
/// the next free id.
pub open spec fn watches_set(
    desired: Map<Seq<char>, RegView>,
    q: Seq<Seq<char>>,
    registry: Seq<(u64, RegView)>,
    root: Seq<char>,
    notify_dir: Seq<char>,
    next: u64,
    n: int,
) -> (Seq<CmdView>, u64)
    decreases n,
{
    if n <= 0 || n > q.len() {
        (seq![], next)
    } else {
        let (cmds, next1) = watches_set(desired, q, registry, root, notify_dir, next, n - 1);
        let path = q[n - 1];
        let (id, next2) = watch_id(registry, path, root, notify_dir, next1);
        if set_already(registry, id, desired[path]) {
            (cmds, next2)
        } else {
            (cmds.push(CmdView::Watch { id, reg: desired[path] }), next2)
        }
    }
}

/// The commands that take back those of the first `n` watches that are not
/// wanted.
pub open spec fn watches_dropped(
    desired: Map<Seq<char>, RegView>,
    registry: Seq<(u64, RegView)>,
    n: int,
) -> Seq<CmdView>
    decreases n,
{
    if n <= 0 || n > registry.len() {
        seq![]
    } else if desired.dom().contains(registry[n - 1].1.path) {
        watches_dropped(desired, registry, n - 1)
    } else {
        watches_dropped(desired, registry, n - 1).push(
            CmdView::Unwatch { id: registry[n - 1].0 },
        )
    }
}

fn find_on_path(registry: &Vec<Watch>, path: &str) -> (r: Option<usize>)
    ensures
        match r {
            Some(i) => seqs::first_index(watch_views(registry@), on_path(path@)) == Some(
                i as int,
            ) && i < registry.len(),
            None => seqs::first_index(watch_views(registry@), on_path(path@)) is None,
        },
{
    let ghost q = watch_views(registry@);
    let mut i: usize = 0;
    while i < registry.len()
        invariant
            i <= registry.len(),
            q == watch_views(registry@),
            forall|j: int| 0 <= j < i ==> !on_path(path@)(#[trigger] q[j]),
        decreases registry.len() - i,
    {
        if same_text(registry[i].reg.path.as_str(), path) {
            proof {
                seqs::lemma_first_is(q, on_path(path@), 0, i as int);
            }
            return Some(i);
        }
        i = i + 1;
    }
    proof {
        seqs::lemma_first_none(q, on_path(path@), 0);
    }
    None
}

fn is_set_already(registry: &Vec<Watch>, id: u64, reg: &Registration) -> (r: bool)
    ensures
        r == set_already(watch_views(registry@), id, reg@),
{
    let ghost q = watch_views(registry@);
    let mut i: usize = 0;
    while i < registry.len()
        invariant
            i <= registry.len(),
            q == watch_views(registry@),
            forall|j: int| 0 <= j < i ==> !with_id(id)(#[trigger] q[j]),
        decreases registry.len() - i,
    {
        if registry[i].id == id {
            proof {
                seqs::lemma_first_is(q, with_id(id), 0, i as int);
            }
            let w = &registry[i].reg;
            return w.recursive == reg.recursive && w.debounce_ms == reg.debounce_ms && same_text(
                w.path.as_str(),
                reg.path.as_str(),
            );
        }
        i = i + 1;
    }
    proof {
        seqs::lemma_first_none(q, with_id(id), 0);
    }
    false
}

/// The commands that bring the watches that are set in line with those
/// that are wanted.
pub fn diff_watch_actions(
    desired: &PathMap<Registration>,
    registry: &Vec<Watch>,
    watch_id_seq: &mut u64,
    root: &CanonPath,
    notify_dir: &CanonPath,
) -> (cmds: Vec<FileWatchCmd>)
    ensures
        ({
            let d = reg_views(desired.map());
            let q = listing::listing(d.dom());
            let r = watch_views(registry@);
            let (set, next) = watches_set(
                d,
                q,
                r,
                root@,
                notify_dir@,
                *old(watch_id_seq),
                q.len() as int,
            );
            &&& cmd_views(cmds@) == set + watches_dropped(d, r, r.len() as int)
            &&& *final(watch_id_seq) == next
        }),
{
    let ghost d = reg_views(desired.map());
    let ghost r = watch_views(registry@);
    let ghost next0 = *watch_id_seq;
    let wanted = sorted_keys(desired);
    let ghost q = buffers::string_views(wanted@);
    assert(d.dom() =~= desired.map().dom());
    let mut cmds: Vec<FileWatchCmd> = Vec::new();
    assert(cmd_views(cmds@) =~= seq![]);
    let mut i: usize = 0;
    while i < wanted.len()
        invariant
            i <= wanted.len(),
            d == reg_views(desired.map()),
            r == watch_views(registry@),
            q == buffers::string_views(wanted@),
            forall|p: Seq<char>| #[trigger] desired.map().dom().contains(p) <==> q.contains(p),
            (cmd_views(cmds@), *watch_id_seq) == watches_set(
                d,
                q,
                r,
                root@,
                notify_dir@,
                next0,
                i as int,
            ),
        decreases wanted.len() - i,
    {
        let path = wanted[i].as_str();
        assert(q[i as int] == path@);
        assert(q.contains(path@));
        let ghost c0 = cmd_views(cmds@);
        if let Some(reg) = desired.get(path) {
            let id: u64 = if same_text(path, root.as_str()) {
                WATCHER_ID_ROOT
            } else if same_text(path, notify_dir.as_str()) {
                WATCHER_ID_NOTIFY_DIR
            } else {
                match find_on_path(registry, path) {
                    Some(k) => registry[k].id,
                    None => {
                        let id: u64 = *watch_id_seq;
                        *watch_id_seq = bump_u64(id);
                        id
                    },
                }
            };
            if !is_set_already(registry, id, reg) {
                cmds.push(
                    FileWatchCmd::Watch {
                        id,
                        path: reg.path.copy(),
                        recursive: reg.recursive,
                        debounce_ms: reg.debounce_ms,
                    },
                );
                assert(cmd_views(cmds@) =~= c0.push(CmdView::Watch { id, reg: reg@ }));
            }
        }
        i = i + 1;
    }
    let ghost set = cmd_views(cmds@);
    assert(set + seq![] =~= set);
    let mut k: usize = 0;
    while k < registry.len()
        invariant
            k <= registry.len(),
            d == reg_views(desired.map()),
            r == watch_views(registry@),
            cmd_views(cmds@) == set + watches_dropped(d, r, k as int),
        decreases registry.len() - k,
    {
        let ghost c0 = cmd_views(cmds@);
        assert(r[k as int] == (registry[k as int].id, registry[k as int].reg@));
        if !desired.contains(registry[k].reg.path.as_str()) {
            cmds.push(FileWatchCmd::Unwatch { id: registry[k].id });
            assert(cmd_views(cmds@) =~= c0.push(CmdView::Unwatch { id: registry[k as int].id }));
            assert(cmd_views(cmds@) =~= set + watches_dropped(d, r, k + 1));
        }
        k = k + 1;
    }
    cmds
}

/// Where all is set as wanted there is nothing to do.
pub proof fn idle_watches_need_nothing(
    desired: Map<Seq<char>, RegView>,
    registry: Seq<(u64, RegView)>,
    root: Seq<char>,
    notify_dir: Seq<char>,
    next: u64,
)
    requires
        desired.dom().finite(),
        forall|p: Seq<char>| #[trigger]
            desired.dom().contains(p) ==> {
                &&& watch_id(registry, p, root, notify_dir, next).1 == next
                &&& set_already(
                    registry,
                    watch_id(registry, p, root, notify_dir, next).0,
                    desired[p],
                )
            },
        forall|i: int|
            0 <= i < registry.len() ==> desired.dom().contains((#[trigger] registry[i]).1.path),
    ensures
        ({
            let q = listing::listing(desired.dom());
            let n = q.len() as int;
            &&& watches_set(desired, q, registry, root, notify_dir, next, n) == (
                Seq::<CmdView>::empty(),
                next,
            )
            &&& watches_dropped(desired, registry, registry.len() as int).len() == 0
        }),
{
    let q = listing::listing(desired.dom());
    listing::finite_sets_have_a_listing(desired.dom());
    lemma_idle_set(desired, q, registry, root, notify_dir, next, q.len() as int);
    lemma_idle_dropped(desired, registry, registry.len() as int);
}

proof fn lemma_idle_set(
    desired: Map<Seq<char>, RegView>,
    q: Seq<Seq<char>>,
    registry: Seq<(u64, RegView)>,
    root: Seq<char>,
    notify_dir: Seq<char>,
    next: u64,
    n: int,
)
    requires
        0 <= n <= q.len(),
        listing::is_listing(q, desired.dom()),
        forall|p: Seq<char>| #[trigger]
            desired.dom().contains(p) ==> {
                &&& watch_id(registry, p, root, notify_dir, next).1 == next
                &&& set_already(
                    registry,
                    watch_id(registry, p, root, notify_dir, next).0,
                    desired[p],
                )
            },
    ensures
        watches_set(desired, q, registry, root, notify_dir, next, n) == (
            Seq::<CmdView>::empty(),
            next,
        ),
    decreases n,
{
    if n > 0 {
        lemma_idle_set(desired, q, registry, root, notify_dir, next, n - 1);
        assert(q.contains(q[n - 1]));
        assert(desired.dom().contains(q[n - 1]));
    }
}

proof fn lemma_idle_dropped(desired: Map<Seq<char>, RegView>, registry: Seq<(u64, RegView)>, n: int)
    requires
        0 <= n <= registry.len(),
        forall|i: int|
            0 <= i < registry.len() ==> desired.dom().contains((#[trigger] registry[i]).1.path),
    ensures
        watches_dropped(desired, registry, n).len() == 0,
    decreases n,
{
    if n > 0 {
        lemma_idle_dropped(desired, registry, n - 1);
        assert(desired.dom().contains(registry[n - 1].1.path));
    }
}

// ---------------------------------------------------------------------
// Files that others changed
// ---------------------------------------------------------------------

/// What is known after a file changed on disk: its directory is to be
/// listed again.
pub open spec fn relisted(fs: FsView, path: Seq<char>) -> FsView {
    match paths::parent_of(path) {
        Some(dir) => FsView { dirs: fs.dirs.remove(dir), ..fs },
        None => fs,
    }
}

/// After a file changed on disk: version control is to be asked again, and
/// its directory to be listed again.
pub fn refresh_after_external_change(
    path: &CanonPath,
    fs: &mut FsTree,
    git_scan_pending: &mut bool,
)
    ensures
        final(fs)@ == relisted(old(fs)@, path@),
        *final(git_scan_pending),
{
    *git_scan_pending = true;
    if let Some(dir) = path.parent() {
        let _ = fs.dir_contents.remove(dir.as_str());
        assert(fs@.dirs =~= old(fs)@.dirs.remove(dir@));
    }
}

/// A clean buffer with the text that is on disk now. The old text can be
/// undone to, and the buffer stays clean.
pub open spec fn reloaded(b: BufferView, clock: u64, new_text: Seq<char>) -> BufferView {
    let origin = Cursor { line: 0, col: 0, preferred_col: 0 };
    replace_one::settled(
        BufferView {
            history: edits::recorded(
                b.history,
                edits::bumped(clock),
                edits::replace_ops(0, b.text, new_text),
                origin,
                origin,
                None,
            ),
            ..edits::retexted(b, new_text)
        },
    )
}

/// What a file that was read again changes: a clean buffer takes the new
/// text, one with unsaved changes keeps its own. Nothing happens if the
/// text is the one that was on disk before.
pub open spec fn reconciled(
    e: EditsView,
    fs: FsView,
    scan: bool,
    path: Seq<char>,
    new_text: Option<Seq<char>>,
) -> (EditsView, FsView, bool) {
    match new_text {
        None => (e, fs, scan),
        Some(t) => if !e.has(path) {
            (e, fs, scan)
        } else {
            let b = e.buffers[path];
            if edits::content_hash(t) == b.disk_content_hash {
                (e, fs, scan)
            } else if edits::is_dirty(b) {
                (e, relisted(fs, path), true)
            } else {
                (
                    e.with_buffer(path, reloaded(b, e.clock, t), edits::bumped(e.clock)),
                    relisted(fs, path),
                    true,
                )
            }
        },
    }
}

pub open spec fn opt_rope(r: Option<ropey::Rope>) -> Option<Seq<char>> {
    match r {
        Some(x) => Some(text::rope_text(x)),
        None => None,
    }
}

/// Takes note of a file that was read again because it changed on disk.
pub fn reconcile_external_change(
    path: &CanonPath,
    result: Option<ropey::Rope>,
    edits: &mut BufferEdits,
    fs: &mut FsTree,
    git_scan_pending: &mut bool,
)
    ensures
        (final(edits)@, final(fs)@, *final(git_scan_pending)) == reconciled(
            old(edits)@,
            old(fs)@,
            *old(git_scan_pending),
            path@,
            opt_rope(result),
        ),
        truth::all_truthful(old(edits)@) ==> truth::all_truthful(final(edits)@),
{
    let rope = match result {
        Some(r) => r,
        None => {
            return;
        },
    };
    let hash: u64 = hash_rope(&rope);
    let (dirty, known) = match edits.get(path.as_str()) {
        Some(eb) => (eb.dirty(), eb.disk_content_hash == hash),
        None => {
            return;
        },
    };
    if known {
        return;
    }
    if !dirty {
        let ghost e0 = edits@;
        let taken = edits.take(path.as_str());
        if let Some(eb) = taken {
            let mut eb = eb;
            let ghost b0 = eb@;
            let prev = rope_string(&eb.rope);
            let next = rope_string(&rope);
            let clock: u64 = edits.clock;
            let seq: u64 = bump_u64(clock);
            let origin = Cursor::origin();
            eb.history.record_replace(seq, 0, prev, next, origin, origin, None);
            bump(&mut eb, rope);
            settle(&mut eb);
            edits.clock = seq;
            let ghost b = eb@;
            edits.put(path.text.clone(), eb);
            proof {
                buffers::lemma_take_put(e0, path@, b, seq);
                let t = b0.text;
                if truth::truthful(b0) {
                    truth::lemma_replacement(
                        b0.history,
                        t,
                        seq,
                        0,
                        t.len() as int,
                        b.text,
                        origin,
                        origin,
                        None,
                    );
                    assert(t.subrange(0, t.len() as int) =~= t);
                    assert(replace_one::spliced(t, 0, t.len() as int, b.text) =~= b.text);
                }
                truth::lemma_kept(e0, path@, b, seq);
                assert(edits@ =~= e0.with_buffer(path@, b, seq));
            }
        }
    }
    refresh_after_external_change(path, fs, git_scan_pending);
}

/// Unsaved changes are never lost to a change on disk, and a buffer that
/// was clean stays clean.
pub proof fn reconciling_is_safe(
    e: EditsView,
    fs: FsView,
    scan: bool,
    path: Seq<char>,
    new_text: Option<Seq<char>>,
)
    requires
        e.has(path),
    ensures
        ({
            let e2 = reconciled(e, fs, scan, path, new_text).0;
            &&& edits::is_dirty(e.buffers[path]) ==> e2 == e
            &&& !edits::is_dirty(e.buffers[path]) ==> !edits::is_dirty(e2.buffers[path])
        }),
{
}

// ---------------------------------------------------------------------
// Laws
// ---------------------------------------------------------------------

/// A file that changed on disk is read anew if its buffer has no changes:
/// the buffer then has the new text, counts as saved, and an undo brings the
/// old text back. A buffer with changes keeps them.
pub proof fn changes_on_disk_are_taken_over(
    e: EditsView,
    fs: FsView,
    scan: bool,
    path: Seq<char>,
    new_text: Seq<char>,
)
    requires
        e.has(path),
    ensures
        ({
            let (e2, fs2, scan2) = reconciled(e, fs, scan, path, Some(new_text));
            let b = e.buffers[path];
            let b2 = e2.buffers[path];
            let changed = edits::content_hash(new_text) != b.disk_content_hash;
            &&& !changed ==> e2 == e && fs2 == fs && scan2 == scan
            &&& changed ==> scan2
            &&& changed && b.version > b.saved_version ==> e2 == e
            &&& changed && b.version <= b.saved_version ==> {
                &&& b2.text == new_text
                &&& b2.saved_version == b2.version
                &&& new_text != b.text ==> crate::undo::buffer_undone(b2).text == b.text
                &&& forall|p: Seq<char>|
                    p != path ==> #[trigger] e2.buffers[p] == e.buffers[p] && e2.has(p) == e.has(p)
            }
            &&& changed ==> (paths::parent_of(path) matches Some(d) ==> !fs2.dirs.dom().contains(d))
            &&& reconciled(e, fs, scan, path, None) == (e, fs, scan)
        }),
{
    let b = e.buffers[path];
    if edits::content_hash(new_text) != b.disk_content_hash && !edits::is_dirty(b) && new_text
        != b.text {
        let ops = edits::replace_ops(0, b.text, new_text);
        truth::lemma_replace_ops(b.text, 0, b.text.len() as int, new_text);
        assert(b.text.subrange(0, b.text.len() as int) =~= b.text);
        let b2 = reloaded(b, e.clock, new_text);
        let h = b2.history;
        let m = h.past.len() as int;
        if b.text.len() == 0 && new_text.len() == 0 {
            assert(b.text =~= new_text);
        }
        assert(ops.len() > 0);
        assert(edits::finalised(h) == h);
        assert(h.past[m - 1].ops == ops);
        assert(edits::last_real(h.past, m) == Some(m - 1));
        edits::inverting_ops_undoes_them(b.text, ops, 0);
        let cut = text::removed(b.text, 0, b.text.len() as int);
        assert(cut =~= seq![]);
        assert(text::inserted(cut, 0, new_text) =~= new_text);
    }
}

proof fn lemma_others(s: Seq<DirView>, path: Seq<char>, n: int, x: DirView)
    requires
        0 <= n <= s.len(),
    ensures
        others(s, path, n).contains(x) <==> x.path != path && exists|i: int|
            0 <= i < n && #[trigger] s[i] == x,
    decreases n,
{
    if n > 0 {
        lemma_others(s, path, n - 1, x);
        let r = others(s, path, n - 1);
        let q = others(s, path, n);
        if s[n - 1].path != path {
            assert(q[r.len() as int] == s[n - 1]);
            if r.contains(x) {
                let i = choose|i: int| 0 <= i < r.len() && r[i] == x;
                assert(q[i] == x);
            }
            if q.contains(x) {
                let i = choose|i: int| 0 <= i < q.len() && q[i] == x;
                if i < r.len() {
                    assert(r[i] == x);
                }
            }
        }
    }
}

/// A file that goes away leaves the listing of its directory, and no other
/// entry does.
pub proof fn removed_files_leave_their_listing(fs: FsView, e: EditsView, ev: EventView, dir: Seq<char>, x: DirView)
    requires
        ev.removed,
        !ev.created,
        !git_internal(ev.path),
        paths::parent_of(ev.path) == Some(dir),
        fs.dirs.dom().contains(dir),
        !paths::under(dir, ev.path),
    ensures
        ({
            let fs2 = event_applied(fs, e, ev).0;
            &&& fs2.dirs.dom().contains(dir)
            &&& fs2.dirs[dir].contains(x) <==> fs.dirs[dir].contains(x) && x.path != ev.path
            &&& forall|k: Seq<char>|
                k != dir && fs.dirs.dom().contains(k) && !paths::under(k, ev.path)
                    ==> #[trigger] fs2.dirs.dom().contains(k) && fs2.dirs[k] == fs.dirs[k]
        }),
{
    let s = fs.dirs[dir];
    lemma_others(s, ev.path, s.len() as int, x);
    if s.contains(x) {
        let i = choose|i: int| 0 <= i < s.len() && s[i] == x;
        assert(s[i] == x);
    }
}

/// A file that appears enters the listing of its directory at the end, once
/// and unless its name starts with a dot; a directory that is not listed
/// stays so.
pub proof fn new_files_enter_their_listing(fs: FsView, e: EditsView, ev: EventView, dir: Seq<char>)
    requires
        ev.created,
        !ev.removed,
        !git_internal(ev.path),
        paths::parent_of(ev.path) == Some(dir),
        !e.has(ev.path),
    ensures
        ({
            let fs2 = event_applied(fs, e, ev).0;
            let name = paths::base_name(ev.path);
            let listed = exists|i: int|
                0 <= i < fs.dirs[dir].len() && (#[trigger] fs.dirs[dir][i]).path == ev.path;
            let fits = fs.dirs.dom().contains(dir) && !listed && ev.kind is Some && name.len() > 0
                && name[0] != '.';
            &&& fits ==> fs2.dirs == fs.dirs.insert(
                dir,
                fs.dirs[dir].push(DirView { name, path: ev.path, kind: ev.kind->0 }),
            )
            &&& !fits ==> fs2.dirs == fs.dirs
            &&& !fs2.failed.contains(ev.path)
        }),
{
    let s = fs.dirs[dir];
    seqs::lemma_first_from(s, with_path(ev.path), 0);
    let i = seqs::first_from(s, with_path(ev.path), 0);
    if i < s.len() {
        assert(with_path(ev.path)(s[i]));
        assert(s[i].path == ev.path);
    } else {
        assert forall|k: int| 0 <= k < s.len() implies (#[trigger] s[k]).path != ev.path by {
            assert(!with_path(ev.path)(s[k]));
        }
    }
    lemma_cleared(fs.failed, ev.path, fs.root, ev.path);
}

proof fn lemma_cleared(f: Set<Seq<char>>, p: Seq<char>, stop: Option<Seq<char>>, x: Seq<char>)
    ensures
        failures_cleared(f, p, stop).contains(x) ==> f.contains(x) && x != p,
    decreases p.len(),
{
    let f2 = f.remove(p);
    if Some(p) != stop {
        if let Some(q) = paths::parent_of(p) {
            if q.len() < p.len() {
                lemma_cleared(f2, q, stop, x);
            }
        }
    }
}

proof fn lemma_end_slash(p: Seq<char>, a: int, n: int)
    requires
        0 <= a < n <= p.len(),
        p[a] == '/',
        forall|i: int| a < i < n ==> p[i] != '/',
    ensures
        paths::last_slash(p, n) == a,
    decreases n - a,
{
    if n - 1 > a {
        lemma_end_slash(p, a, n - 1);
    }
}

/// The components of a path are its names between slashes.
pub proof fn components_are_the_names(a: Seq<char>, name: Seq<char>)
    requires
        name.len() > 0,
        name != seq!['.'],
        forall|i: int| 0 <= i < name.len() ==> #[trigger] name[i] != '/',
    ensures
        components(a + seq!['/'] + name) == components(a).push(name),
{
    let p = a + seq!['/'] + name;
    let k = a.len() as int;
    assert(p[k] == '/');
    assert forall|i: int| k < i < p.len() implies p[i] != '/' by {
        assert(p[i] == name[i - k - 1]);
    }
    lemma_end_slash(p, k, p.len() as int);
    assert(p.subrange(k + 1, p.len() as int) =~= name);
    assert(p.subrange(0, k) =~= a);
}

/// What lies in a `.git` directory is its own affair; the index, the head
/// and the references tell that the state of version control changed.
pub proof fn the_index_the_head_and_references_tell(root: Seq<char>, name: Seq<char>)
    requires
        forall|i: int| 0 <= i < components(root).len() ==> #[trigger] components(root)[i] != ".git"@,
        name.len() > 0,
        name != seq!['.'],
        forall|i: int| 0 <= i < name.len() ==> #[trigger] name[i] != '/',
    ensures
        ({
            let git = root + seq!['/'] + ".git"@;
            let refs = git + seq!['/'] + "refs"@;
            &&& !git_internal(root)
            &&& git_internal(git)
            &&& !git_sentinel(git)
            &&& git_internal(git + seq!['/'] + name)
            &&& git_sentinel(git + seq!['/'] + name) <==> name == "index"@ || name == "HEAD"@
            &&& git_sentinel(refs + seq!['/'] + name)
            &&& name != ".git"@ ==> !git_internal(root + seq!['/'] + name)
        }),
{
    reveal_strlit(".git");
    reveal_strlit("refs");
    reveal_strlit("index");
    reveal_strlit("HEAD");
    let git = root + seq!['/'] + ".git"@;
    let refs = git + seq!['/'] + "refs"@;
    let c = components(root);
    let n = c.len() as int;
    let g = named(".git"@);
    assert(seq!['.'].len() == 1);
    components_are_the_names(root, ".git"@);
    components_are_the_names(git, name);
    components_are_the_names(git, "refs"@);
    components_are_the_names(refs, name);
    components_are_the_names(root, name);
    assert forall|i: int| 0 <= i < n implies !g(#[trigger] c[i]) by {}
    seqs::lemma_first_none(c, g, 0);
    let c1 = components(git);
    let c2 = components(git + seq!['/'] + name);
    let c4 = components(refs + seq!['/'] + name);
    assert forall|i: int| 0 <= i < n implies !g(#[trigger] c1[i]) by {
        assert(c1[i] == c[i]);
    }
    assert forall|i: int| 0 <= i < n implies !g(#[trigger] c2[i]) by {
        assert(c2[i] == c[i]);
    }
    assert forall|i: int| 0 <= i < n implies !g(#[trigger] c4[i]) by {
        assert(c4[i] == c[i]);
    }
    seqs::lemma_first_is(c1, g, 0, n);
    seqs::lemma_first_is(c2, g, 0, n);
    seqs::lemma_first_is(c4, g, 0, n);
    assert(c2[n + 1] == name);
    assert(c4[n + 1] == "refs"@);
    assert("refs"@ != "index"@) by {
        assert("refs"@.len() != "index"@.len());
    }
    assert("refs"@ != "HEAD"@) by {
        assert("refs"@[0] != "HEAD"@[0]);
    }
    if name != ".git"@ {
        let c5 = components(root + seq!['/'] + name);
        assert forall|i: int| 0 <= i < c5.len() implies !g(#[trigger] c5[i]) by {
            if i < n {
                assert(c5[i] == c[i]);
            }
        }
        seqs::lemma_first_none(c5, g, 0);
    }
}

/// The watch on a path is wanted with its registration.
pub open spec fn sets(c: Seq<CmdView>, reg: RegView) -> bool {
    exists|k: int| 0 <= k < c.len() && (#[trigger] c[k]) is Watch && c[k]->reg == reg
}

proof fn lemma_watches(
    desired: Map<Seq<char>, RegView>,
    q: Seq<Seq<char>>,
    registry: Seq<(u64, RegView)>,
    root: Seq<char>,
    notify_dir: Seq<char>,
    next: u64,
    n: int,
    i: int,
)
    requires
        0 <= i < n <= q.len(),
    ensures
        sets(watches_set(desired, q, registry, root, notify_dir, next, n).0, desired[q[i]])
            || exists|k: int| 0 <= k < registry.len() && (#[trigger] registry[k]).1 == desired[q[i]],
    decreases n,
{
    let (cmds, next1) = watches_set(desired, q, registry, root, notify_dir, next, n - 1);
    let all = watches_set(desired, q, registry, root, notify_dir, next, n).0;
    if i < n - 1 {
        lemma_watches(desired, q, registry, root, notify_dir, next, n - 1, i);
        if sets(cmds, desired[q[i]]) {
            let k = choose|k: int|
                0 <= k < cmds.len() && (#[trigger] cmds[k]) is Watch && cmds[k]->reg
                    == desired[q[i]];
            assert(all[k] == cmds[k]);
        }
    } else {
        let (id, next2) = watch_id(registry, q[i], root, notify_dir, next1);
        if set_already(registry, id, desired[q[i]]) {
            seqs::lemma_first_from(registry, with_id(id), 0);
            let k = seqs::first_from(registry, with_id(id), 0);
            assert(registry[k].1 == desired[q[i]]);
        } else {
            assert(all[cmds.len() as int]->reg == desired[q[i]]);
        }
    }
}

/// Every path that is to be watched is watched as wanted, by a watch that
/// stands or by one that is set.
pub proof fn every_wanted_path_is_watched(
    desired: Map<Seq<char>, RegView>,
    registry: Seq<(u64, RegView)>,
    root: Seq<char>,
    notify_dir: Seq<char>,
    next: u64,
    p: Seq<char>,
)
    requires
        desired.dom().finite(),
        desired.dom().contains(p),
    ensures
        ({
            let q = listing::listing(desired.dom());
            sets(
                watches_set(desired, q, registry, root, notify_dir, next, q.len() as int).0,
                desired[p],
            ) || exists|k: int| 0 <= k < registry.len() && (#[trigger] registry[k]).1 == desired[p]
        }),
{
    listing::finite_sets_have_a_listing(desired.dom());
    let q = listing::listing(desired.dom());
    assert(q.contains(p));
    let i = choose|i: int| 0 <= i < q.len() && q[i] == p;
    lemma_watches(desired, q, registry, root, notify_dir, next, q.len() as int, i);
}

proof fn lemma_dropped(desired: Map<Seq<char>, RegView>, registry: Seq<(u64, RegView)>, n: int, id: u64)
    requires
        0 <= n <= registry.len(),
    ensures
        watches_dropped(desired, registry, n).contains(CmdView::Unwatch { id }) <==> exists|k: int|
            0 <= k < n && (#[trigger] registry[k]).0 == id && !desired.dom().contains(
                registry[k].1.path,
            ),
    decreases n,
{
    if n > 0 {
        lemma_dropped(desired, registry, n - 1, id);
        let r = watches_dropped(desired, registry, n - 1);
        let q = watches_dropped(desired, registry, n);
        let x = CmdView::Unwatch { id };
        if !desired.dom().contains(registry[n - 1].1.path) {
            assert(q[r.len() as int] == CmdView::Unwatch { id: registry[n - 1].0 });
            if r.contains(x) {
                let i = choose|i: int| 0 <= i < r.len() && r[i] == x;
                assert(q[i] == x);
            }
            if q.contains(x) {
                let i = choose|i: int| 0 <= i < q.len() && q[i] == x;
                if i < r.len() {
                    assert(r[i] == x);
                } else {
                    assert(registry[n - 1].0 == id);
                }
            }
        }
    }
}

/// A watch is dropped exactly if nobody wants its path any more.
pub proof fn unwanted_watches_are_dropped(desired: Map<Seq<char>, RegView>, registry: Seq<(u64, RegView)>, id: u64)
    ensures
        watches_dropped(desired, registry, registry.len() as int).contains(CmdView::Unwatch { id })
            <==> exists|k: int|
            0 <= k < registry.len() && (#[trigger] registry[k]).0 == id && !desired.dom().contains(
                registry[k].1.path,
            ),
{
    lemma_dropped(desired, registry, registry.len() as int, id);
}

/// The root and the directory of notices have the watches set aside for
/// them; any other path keeps the number of its watch, and one without a
/// watch gets the next.
pub proof fn watches_are_numbered(
    registry: Seq<(u64, RegView)>,
    path: Seq<char>,
    root: Seq<char>,
    notify_dir: Seq<char>,
    next: u64,
    i: int,
)
    ensures
        ({
            let (id, n) = watch_id(registry, path, root, notify_dir, next);
            &&& path == root ==> id == 0 && n == next
            &&& path != root && path == notify_dir ==> id == 1 && n == next
            &&& path != root && path != notify_dir && 0 <= i < registry.len() && registry[i].1.path
                == path && (forall|k: int| 0 <= k < i ==> (#[trigger] registry[k]).1.path != path)
                ==> id == registry[i].0 && n == next
            &&& path != root && path != notify_dir && (forall|k: int|
                0 <= k < registry.len() ==> (#[trigger] registry[k]).1.path != path) ==> id == next
                && (next < u64::MAX ==> n == next + 1)
        }),
{
    let p = on_path(path);
    if 0 <= i < registry.len() && registry[i].1.path == path && (forall|k: int|
        0 <= k < i ==> (#[trigger] registry[k]).1.path != path) {
        assert forall|k: int| 0 <= k < i implies !p(#[trigger] registry[k]) by {}
        seqs::lemma_first_is(registry, p, 0, i);
    }
    if forall|k: int| 0 <= k < registry.len() ==> (#[trigger] registry[k]).1.path != path {
        assert forall|k: int| 0 <= k < registry.len() implies !p(#[trigger] registry[k]) by {}
        seqs::lemma_first_none(registry, p, 0);
    }
}

} // verus!
