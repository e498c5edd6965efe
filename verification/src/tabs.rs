//! Open tabs.

use vstd::prelude::*;

use crate::columns::{Cursor, Scroll};
use crate::paths::CanonPath;
use crate::seqs;

verus! {

/// A persistent vector.
#[verifier::external_type_specification]
#[verifier::external_body]
#[verifier::reject_recursive_types(A)]
pub struct ExImblVector<A>(imbl::Vector<A>);

#[derive(Clone, Copy, Debug, PartialEq, Eq, Structural)]
pub struct TabId(pub u64);

/// A view onto a buffer.
pub struct Tab {
    pub id: TabId,
    pub path: CanonPath,
    /// A tab opened to look at a file; the next one takes its place.
    pub preview: bool,
    /// The tab to return to when a preview closes.
    pub previous_tab: Option<TabId>,
    pub cursor: Cursor,
    pub scroll: Scroll,
    pub mark: Option<Cursor>,
    /// Where to put the cursor once the buffer has loaded.
    pub pending_cursor: Option<Cursor>,
    pub pending_scroll: Option<Scroll>,
    /// The text of the last search in this tab.
    pub last_search: Option<String>,
}

/// What a tab says.
#[verifier::ext_equal]
pub struct TabView {
    pub id: TabId,
    pub path: Seq<char>,
    pub preview: bool,
    pub previous_tab: Option<TabId>,
    pub cursor: Cursor,
    pub scroll: Scroll,
    pub mark: Option<Cursor>,
    pub pending_cursor: Option<Cursor>,
    pub pending_scroll: Option<Scroll>,
    pub last_search: Option<Seq<char>>,
}

impl View for Tab {
    type V = TabView;

    open spec fn view(&self) -> TabView {
        TabView {
            id: self.id,
            path: self.path@,
            preview: self.preview,
            previous_tab: self.previous_tab,
            cursor: self.cursor,
            scroll: self.scroll,
            mark: self.mark,
            pending_cursor: self.pending_cursor,
            pending_scroll: self.pending_scroll,
            last_search: match self.last_search {
                Some(s) => Some(s@),
                None => None,
            },
        }
    }
}

/// A tab that was just opened.
pub open spec fn fresh_tab(id: TabId, path: Seq<char>, preview: bool, previous: Option<TabId>) -> TabView {
    TabView {
        id,
        path,
        preview,
        previous_tab: previous,
        cursor: Cursor { line: 0, col: 0, preferred_col: 0 },
        scroll: Scroll { top: 0, top_sub_line: 0 },
        mark: None,
        pending_cursor: None,
        pending_scroll: None,
        last_search: None,
    }
}

impl Tab {
    pub fn fresh(id: TabId, path: &CanonPath, preview: bool, previous_tab: Option<TabId>) -> (t: Tab)
        ensures
            t@ == fresh_tab(id, path@, preview, previous_tab),
    {
        Tab {
            id,
            path: path.copy(),
            preview,
            previous_tab,
            cursor: Cursor::origin(),
            scroll: Scroll::origin(),
            mark: None,
            pending_cursor: None,
            pending_scroll: None,
            last_search: None,
        }
    }

    pub fn copy(&self) -> (t: Tab)
        ensures
            t == *self,
    {
        let last_search = match &self.last_search {
            Some(s) => Some(s.clone()),
            None => None,
        };
        Tab {
            id: self.id,
            path: self.path.copy(),
            preview: self.preview,
            previous_tab: self.previous_tab,
            cursor: self.cursor,
            scroll: self.scroll,
            mark: self.mark,
            pending_cursor: self.pending_cursor,
            pending_scroll: self.pending_scroll,
            last_search,
        }
    }
}

/// The tabs that a vector holds, in order.
pub uninterp spec fn vector_tabs(v: imbl::Vector<Tab>) -> Seq<Tab>;

/// `imbl::Vector::new`: an empty vector.
#[verifier::external_body]
fn vector_new() -> (v: imbl::Vector<Tab>)
    ensures
        vector_tabs(v) == Seq::<Tab>::empty(),
{
    imbl::Vector::new()
}

/// `imbl::Vector::len`.
#[verifier::external_body]
fn vector_len(v: &imbl::Vector<Tab>) -> (n: usize)
    ensures
        n == vector_tabs(*v).len(),
{
    v.len()
}

/// `imbl::Vector::get`: the item at an index, if there is one.
#[verifier::external_body]
fn vector_get(v: &imbl::Vector<Tab>, i: usize) -> (r: Option<&Tab>)
    ensures
        r is Some <==> i < vector_tabs(*v).len(),
        r is Some ==> *r->0 == vector_tabs(*v)[i as int],
{
    v.get(i)
}

/// `imbl::Vector::push_back`: one more item at the end.
#[verifier::external_body]
fn vector_push_back(v: &mut imbl::Vector<Tab>, t: Tab)
    ensures
        vector_tabs(*final(v)) == vector_tabs(*old(v)).push(t),
{
    v.push_back(t)
}

/// `imbl::Vector::remove`: takes the item at an index out. It panics when
/// there is none.
#[verifier::external_body]
fn vector_remove(v: &mut imbl::Vector<Tab>, i: usize) -> (t: Tab)
    requires
        i < vector_tabs(*old(v)).len(),
    ensures
        t == vector_tabs(*old(v))[i as int],
        vector_tabs(*final(v)) == vector_tabs(*old(v)).remove(i as int),
{
    v.remove(i)
}

/// `imbl::Vector::set`: puts an item in the place of another. It panics
/// when there is none to replace. The vector asks that items can be
/// cloned; the clone of a tab is never looked at here.
#[verifier::external_body]
fn vector_set(v: &mut imbl::Vector<Tab>, i: usize, t: Tab)
    requires
        i < vector_tabs(*old(v)).len(),
    ensures
        vector_tabs(*final(v)) == vector_tabs(*old(v)).update(i as int, t),
{
    v.set(i, t);
}

impl Clone for Tab {
    fn clone(&self) -> (t: Tab)
        ensures
            t == *self,
    {
        self.copy()
    }
}

/// The open tabs and which one has the focus.
pub struct Tabs {
    pub open: imbl::Vector<Tab>,
    pub active: Option<TabId>,
    /// The greatest id that a closed tab had.
    pub closed: u64,
}

#[verifier::ext_equal]
pub struct TabsView {
    pub open: Seq<TabView>,
    pub active: Option<TabId>,
    pub closed: u64,
}

pub open spec fn tab_views(s: Seq<Tab>) -> Seq<TabView> {
    Seq::new(s.len(), |i: int| s[i]@)
}

impl View for Tabs {
    type V = TabsView;

    open spec fn view(&self) -> TabsView {
        TabsView {
            open: tab_views(vector_tabs(self.open)),
            active: self.active,
            closed: self.closed,
        }
    }
}

pub open spec fn by_id(id: TabId) -> spec_fn(TabView) -> bool {
    |t: TabView| t.id == id
}

pub open spec fn by_path(path: Seq<char>) -> spec_fn(TabView) -> bool {
    |t: TabView| t.path == path
}

pub open spec fn is_preview() -> spec_fn(TabView) -> bool {
    |t: TabView| t.preview
}

impl TabsView {
    /// The index of the tab with a given id.
    pub open spec fn find(self, id: TabId) -> Option<int> {
        seqs::first_index(self.open, by_id(id))
    }

    /// The index of the tab that has the focus.
    pub open spec fn active_index(self) -> Option<int> {
        match self.active {
            Some(id) => self.find(id),
            None => None,
        }
    }

    pub open spec fn find_path(self, path: Seq<char>) -> Option<int> {
        seqs::first_index(self.open, by_path(path))
    }

    pub open spec fn find_preview(self) -> Option<int> {
        seqs::first_index(self.open, is_preview())
    }

    /// The tabs with another one in the place of tab `i`.
    pub open spec fn with_tab(self, i: int, t: TabView) -> TabsView {
        TabsView { open: self.open.update(i, t), ..self }
    }

    /// The tabs without tab `i`, whose id is remembered.
    pub open spec fn without(self, i: int) -> TabsView {
        let id = self.open[i].id.0;
        TabsView {
            open: self.open.remove(i),
            closed: if id > self.closed {
                id
            } else {
                self.closed
            },
            ..self
        }
    }
}

/// No tabs, and none closed so far.
pub open spec fn no_tabs() -> TabsView {
    TabsView { open: seq![], active: None, closed: 0 }
}

impl Tabs {
    pub fn new() -> (t: Tabs)
        ensures
            t@ == no_tabs(),
    {
        let t = Tabs { open: vector_new(), active: None, closed: 0 };
        assert(t@.open =~= Seq::<TabView>::empty());
        t
    }

    pub fn len(&self) -> (n: usize)
        ensures
            n == self@.open.len(),
    {
        vector_len(&self.open)
    }

    /// The tab at an index.
    pub fn at(&self, i: usize) -> (t: &Tab)
        requires
            i < self@.open.len(),
        ensures
            t@ == self@.open[i as int],
            *t == vector_tabs(self.open)[i as int],
    {
        vector_get(&self.open, i).unwrap()
    }

    pub fn push(&mut self, t: Tab)
        ensures
            final(self)@ == (TabsView { open: old(self)@.open.push(t@), ..old(self)@ }),
    {
        vector_push_back(&mut self.open, t);
        assert(self@.open =~= old(self)@.open.push(t@));
    }

    pub fn set(&mut self, i: usize, t: Tab)
        requires
            i < old(self)@.open.len(),
        ensures
            final(self)@ == old(self)@.with_tab(i as int, t@),
    {
        vector_set(&mut self.open, i, t);
        assert(self@.open =~= old(self)@.open.update(i as int, t@));
    }

    pub fn remove(&mut self, i: usize)
        requires
            i < old(self)@.open.len(),
        ensures
            final(self)@ == old(self)@.without(i as int),
    {
        let t = vector_remove(&mut self.open, i);
        if t.id.0 > self.closed {
            self.closed = t.id.0;
        }
        assert(self@.open =~= old(self)@.open.remove(i as int));
    }

    /// The index of the tab with a given id.
    pub fn find(&self, id: TabId) -> (r: Option<usize>)
        ensures
            r is Some <==> self@.find(id) is Some,
            r is Some ==> r->0 == self@.find(id)->0 && r->0 < self@.open.len() && self@.open[r->0 as int].id
                == id,
    {
        let n: usize = self.len();
        let mut i: usize = 0;
        while i < n
            invariant
                i <= n,
                n == self@.open.len(),
                forall|j: int| 0 <= j < i ==> !by_id(id)(#[trigger] self@.open[j]),
            decreases n - i,
        {
            if self.at(i).id == id {
                proof {
                    seqs::lemma_first_is(self@.open, by_id(id), 0, i as int);
                }
                return Some(i);
            }
            i = i + 1;
        }
        proof {
            seqs::lemma_first_none(self@.open, by_id(id), 0);
        }
        None
    }

    /// The index of the first tab on a given path.
    pub fn find_path(&self, path: &str) -> (r: Option<usize>)
        ensures
            r is Some <==> self@.find_path(path@) is Some,
            r is Some ==> r->0 == self@.find_path(path@)->0 && r->0 < self@.open.len()
                && self@.open[r->0 as int].path == path@,
    {
        let n: usize = self.len();
        let mut i: usize = 0;
        while i < n
            invariant
                i <= n,
                n == self@.open.len(),
                forall|j: int| 0 <= j < i ==> !by_path(path@)(#[trigger] self@.open[j]),
            decreases n - i,
        {
            if crate::chars::same_text(self.at(i).path.as_str(), path) {
                proof {
                    seqs::lemma_first_is(self@.open, by_path(path@), 0, i as int);
                }
                return Some(i);
            }
            i = i + 1;
        }
        proof {
            seqs::lemma_first_none(self@.open, by_path(path@), 0);
        }
        None
    }

    /// The index of the preview tab.
    pub fn find_preview(&self) -> (r: Option<usize>)
        ensures
            r is Some <==> self@.find_preview() is Some,
            r is Some ==> r->0 == self@.find_preview()->0 && r->0 < self@.open.len()
                && self@.open[r->0 as int].preview,
    {
        let n: usize = self.len();
        let mut i: usize = 0;
        while i < n
            invariant
                i <= n,
                n == self@.open.len(),
                forall|j: int| 0 <= j < i ==> !is_preview()(#[trigger] self@.open[j]),
            decreases n - i,
        {
            if self.at(i).preview {
                proof {
                    seqs::lemma_first_is(self@.open, is_preview(), 0, i as int);
                }
                return Some(i);
            }
            i = i + 1;
        }
        proof {
            seqs::lemma_first_none(self@.open, is_preview(), 0);
        }
        None
    }

    /// The index of the tab that has the focus.
    pub fn active_index(&self) -> (r: Option<usize>)
        ensures
            r is Some <==> self@.active_index() is Some,
            r is Some ==> r->0 == self@.active_index()->0 && r->0 < self@.open.len() && self@.active
                == Some(self@.open[r->0 as int].id),
    {
        match self.active {
            Some(id) => self.find(id),
            None => None,
        }
    }
}

// ---------------------------------------------------------------------
// Opening and closing
// ---------------------------------------------------------------------

/// The greatest of the ids in use and `0`.
pub open spec fn max_id(open: Seq<TabView>, n: int) -> u64
    decreases n,
{
    if n <= 0 || n > open.len() {
        0
    } else {
        let m = max_id(open, n - 1);
        if open[n - 1].id.0 > m {
            open[n - 1].id.0
        } else {
            m
        }
    }
}

/// The greatest id that any tab has or had.
pub open spec fn newest_id(s: TabsView) -> u64 {
    let m = max_id(s.open, s.open.len() as int);
    if m > s.closed {
        m
    } else {
        s.closed
    }
}

/// The id of the next tab: one past the greatest that any tab has or had.
pub open spec fn next_id(s: TabsView) -> TabId {
    let m = newest_id(s);
    TabId(if m == u64::MAX {
        m
    } else {
        (m + 1) as u64
    })
}

/// Allocates an id that no tab has or had.
pub fn next_tab_id(tabs: &Tabs) -> (id: TabId)
    ensures
        id == next_id(tabs@),
        newest_id(tabs@) < u64::MAX ==> id.0 > newest_id(tabs@),
{
    let n: usize = tabs.len();
    let mut i: usize = 0;
    let mut max: u64 = 0;
    while i < n
        invariant
            i <= n,
            n == tabs@.open.len(),
            max == max_id(tabs@.open, i as int),
        decreases n - i,
    {
        let id: u64 = tabs.at(i).id.0;
        if id > max {
            max = id;
        }
        i = i + 1;
    }
    if tabs.closed > max {
        max = tabs.closed;
    }
    TabId(if max == u64::MAX { max } else { max + 1 })
}

/// What opening a path does to the tabs.
pub open spec fn opened(s: TabsView, path: Seq<char>, promote: bool) -> TabsView {
    match s.find_path(path) {
        Some(i) => {
            let t = s.open[i];
            TabsView {
                open: if promote {
                    s.open.update(i, TabView { preview: false, previous_tab: None, ..t })
                } else {
                    s.open
                },
                active: Some(t.id),
                ..s
            }
        },
        None => match s.find_preview() {
            Some(i) => {
                let t = s.open[i];
                TabsView {
                    open: s.open.update(
                        i,
                        TabView {
                            path,
                            preview: !promote,
                            cursor: Cursor { line: 0, col: 0, preferred_col: 0 },
                            scroll: Scroll { top: 0, top_sub_line: 0 },
                            mark: None,
                            previous_tab: if promote {
                                None
                            } else {
                                t.previous_tab
                            },
                            ..t
                        },
                    ),
                    active: Some(t.id),
                    ..s
                }
            },
            None => {
                let id = next_id(s);
                let previous = if promote {
                    None
                } else {
                    s.active
                };
                TabsView {
                    open: s.open.push(fresh_tab(id, path, !promote, previous)),
                    active: Some(id),
                    ..s
                }
            },
        },
    }
}

/// Opens a file tab at `path`, or focuses the one that is open.
///
/// A tab on the path gets the focus, and `promote` makes it a lasting one.
/// Otherwise the preview tab, if there is one, moves to the path; it keeps
/// the tab to return to unless it is promoted. Otherwise a new tab is
/// opened, a preview unless promoted, which remembers the tab that had the
/// focus.
pub fn open_or_focus_tab(tabs: &mut Tabs, path: &CanonPath, promote: bool)
    ensures
        final(tabs)@ == opened(old(tabs)@, path@, promote),
{
    if let Some(idx) = tabs.find_path(path.as_str()) {
        let mut t = tabs.at(idx).copy();
        tabs.active = Some(t.id);
        if promote {
            t.preview = false;
            t.previous_tab = None;
            tabs.set(idx, t);
        }
        return;
    }
    if let Some(idx) = tabs.find_preview() {
        let mut t = tabs.at(idx).copy();
        t.path = path.copy();
        t.preview = !promote;
        t.cursor = Cursor::origin();
        t.scroll = Scroll::origin();
        t.mark = None;
        if promote {
            t.previous_tab = None;
        }
        tabs.active = Some(t.id);
        tabs.set(idx, t);
        return;
    }
    let id = next_tab_id(tabs);
    let previous_tab = if promote { None } else { tabs.active };
    tabs.push(Tab::fresh(id, path, !promote, previous_tab));
    tabs.active = Some(id);
}

/// The id of the last tab.
pub open spec fn last_id(open: Seq<TabView>) -> Option<TabId> {
    if open.len() > 0 {
        Some(open[open.len() - 1].id)
    } else {
        None
    }
}

/// What closing the preview does to the tabs.
pub open spec fn preview_closed(s: TabsView) -> TabsView {
    match s.find_preview() {
        None => s,
        Some(i) => {
            let restore = s.open[i].previous_tab;
            let rest = s.without(i);
            TabsView {
                active: if restore is Some && rest.find(restore->0) is Some {
                    restore
                } else {
                    last_id(rest.open)
                },
                ..rest
            }
        },
    }
}

/// Removes the preview tab, if there is one. The focus goes back to the tab
/// that had it before the preview opened, or else to the last tab.
pub fn close_preview(tabs: &mut Tabs)
    ensures
        final(tabs)@ == preview_closed(old(tabs)@),
{
    let idx: usize = match tabs.find_preview() {
        Some(i) => i,
        None => {
            return;
        },
    };
    let restore = tabs.at(idx).previous_tab;
    tabs.remove(idx);
    if let Some(target) = restore {
        if tabs.find(target).is_some() {
            tabs.active = Some(target);
            return;
        }
    }
    let n: usize = tabs.len();
    tabs.active = if n > 0 { Some(tabs.at(n - 1).id) } else { None };
}

// ---------------------------------------------------------------------
// Laws
// ---------------------------------------------------------------------

/// No two open tabs share an id.
pub open spec fn unique_ids(s: TabsView) -> bool {
    forall|i: int, j: int| 0 <= i < j < s.open.len() ==> s.open[i].id != s.open[j].id
}

/// At most one open tab is a preview.
pub open spec fn one_preview(s: TabsView) -> bool {
    forall|i: int, j: int|
        0 <= i < j < s.open.len() ==> !((#[trigger] s.open[i]).preview && (
        #[trigger] s.open[j]).preview)
}

/// The focus is on an open tab, if on any.
pub open spec fn focus_open(s: TabsView) -> bool {
    s.active is Some ==> s.find(s.active->0) is Some
}

pub proof fn lemma_max_id(open: Seq<TabView>, n: int, i: int)
    requires
        0 <= i < n <= open.len(),
    ensures
        open[i].id.0 <= max_id(open, n),
    decreases n,
{
    if i < n - 1 {
        lemma_max_id(open, n - 1, i);
    }
}

pub proof fn lemma_find(s: TabsView, i: int)
    requires
        unique_ids(s),
        0 <= i < s.open.len(),
    ensures
        s.find(s.open[i].id) == Some(i),
{
    let p = by_id(s.open[i].id);
    assert forall|j: int| 0 <= j < i implies !p(#[trigger] s.open[j]) by {}
    seqs::lemma_first_is(s.open, p, 0, i);
}

pub proof fn lemma_find_some(s: TabsView, id: TabId, i: int)
    requires
        0 <= i < s.open.len(),
        s.open[i].id == id,
    ensures
        s.find(id) is Some,
{
    seqs::lemma_first_from(s.open, by_id(id), 0);
    if s.find(id) is None {
        assert(!by_id(id)(s.open[i]));
    }
}

/// No two open tabs show the same path.
pub open spec fn unique_paths(s: TabsView) -> bool {
    forall|i: int, j: int|
        0 <= i < j < s.open.len() ==> (#[trigger] s.open[i]).path != (#[trigger] s.open[j]).path
}

/// How many of the first `n` tabs are previews.
pub open spec fn previews(open: Seq<TabView>, n: int) -> nat
    decreases n,
{
    if n <= 0 || n > open.len() {
        0
    } else if open[n - 1].preview {
        previews(open, n - 1) + 1
    } else {
        previews(open, n - 1)
    }
}

proof fn lemma_previews_removed(open: Seq<TabView>, i: int, n: int)
    requires
        0 <= i < n <= open.len(),
    ensures
        previews(open, n) == previews(open.remove(i), n - 1) + if open[i].preview {
            1int
        } else {
            0
        },
    decreases n,
{
    let rest = open.remove(i);
    if i < n - 1 {
        lemma_previews_removed(open, i, n - 1);
        assert(rest[n - 2] == open[n - 1]);
    } else {
        lemma_previews_prefix(open, rest, n - 1);
    }
}

proof fn lemma_previews_prefix(a: Seq<TabView>, b: Seq<TabView>, n: int)
    requires
        0 <= n <= a.len(),
        n <= b.len(),
        forall|j: int| 0 <= j < n ==> a[j] == b[j],
    ensures
        previews(a, n) == previews(b, n),
    decreases n,
{
    if n > 0 {
        lemma_previews_prefix(a, b, n - 1);
    }
}

proof fn lemma_max_id_removed(open: Seq<TabView>, i: int, n: int)
    requires
        0 <= i < n <= open.len(),
    ensures
        max_id(open, n) == (if open[i].id.0 > max_id(open.remove(i), n - 1) {
            open[i].id.0
        } else {
            max_id(open.remove(i), n - 1)
        }),
    decreases n,
{
    let rest = open.remove(i);
    if i < n - 1 {
        lemma_max_id_removed(open, i, n - 1);
        assert(rest[n - 2] == open[n - 1]);
    } else {
        lemma_max_id_prefix(open, rest, n - 1);
    }
}

proof fn lemma_max_id_prefix(a: Seq<TabView>, b: Seq<TabView>, n: int)
    requires
        0 <= n <= a.len(),
        n <= b.len(),
        forall|j: int| 0 <= j < n ==> (#[trigger] a[j]).id == b[j].id,
    ensures
        max_id(a, n) == max_id(b, n),
    decreases n,
{
    if n > 0 {
        lemma_max_id_prefix(a, b, n - 1);
        assert(a[n - 1].id == b[n - 1].id);
    }
}

/// Ids are given out in increasing order: a new one is greater than that
/// of any tab there is or ever was. Closing a tab, also a preview, forgets
/// no id, and opening one at most adds to them.
pub proof fn ids_are_never_reused(s: TabsView, path: Seq<char>, promote: bool)
    ensures
        forall|j: int| 0 <= j < s.open.len() ==> (#[trigger] s.open[j]).id.0 <= newest_id(s),
        newest_id(s) < u64::MAX ==> next_id(s).0 > newest_id(s),
        forall|i: int|
            0 <= i < s.open.len() ==> newest_id(#[trigger] s.without(i)) == newest_id(s),
        newest_id(preview_closed(s)) == newest_id(s),
        newest_id(opened(s, path, promote)) >= newest_id(s),
        opened(s, path, promote).open.len() > s.open.len() ==> newest_id(
            opened(s, path, promote),
        ) == next_id(s).0,
{
    let n = s.open.len() as int;
    assert forall|j: int| 0 <= j < n implies (#[trigger] s.open[j]).id.0 <= newest_id(s) by {
        lemma_max_id(s.open, n, j);
    }
    assert forall|i: int| 0 <= i < n implies newest_id(#[trigger] s.without(i)) == newest_id(
        s,
    ) by {
        lemma_max_id_removed(s.open, i, n);
    }
    seqs::lemma_first_from(s.open, is_preview(), 0);
    seqs::lemma_first_from(s.open, by_path(path), 0);
    if let Some(i) = s.find_preview() {
        assert(newest_id(s.without(i)) == newest_id(s));
    }
    let o = opened(s, path, promote);
    lemma_max_id_prefix(s.open, o.open, n);
}

/// Opening a path keeps the ids of tabs apart, and their paths, and keeps
/// the preview alone. It leaves the focus on a tab that shows the path, and
/// every other tab as it was.
pub proof fn opening_keeps_tabs_sound(s: TabsView, path: Seq<char>, promote: bool)
    requires
        unique_ids(s),
        one_preview(s),
        newest_id(s) < u64::MAX,
    ensures
        unique_ids(opened(s, path, promote)),
        one_preview(opened(s, path, promote)),
        unique_paths(s) ==> unique_paths(opened(s, path, promote)),
        s.open.len() <= opened(s, path, promote).open.len() <= s.open.len() + 1,
        forall|j: int|
            0 <= j < s.open.len() && Some(j) != opened(s, path, promote).active_index()
                ==> #[trigger] opened(s, path, promote).open[j] == s.open[j],
        opened(s, path, promote).active_index() is Some,
        opened(s, path, promote).open[opened(s, path, promote).active_index()->0].path == path,
        promote ==> !opened(s, path, promote).open[opened(
            s,
            path,
            promote,
        ).active_index()->0].preview,
{
    let o = opened(s, path, promote);
    seqs::lemma_first_from(s.open, by_path(path), 0);
    seqs::lemma_first_from(s.open, is_preview(), 0);
    if s.find_path(path) is Some {
        let i = s.find_path(path)->0;
        assert(unique_ids(o));
        lemma_find(o, i);
    } else if s.find_preview() is Some {
        let i = s.find_preview()->0;
        assert forall|a: int, b: int| 0 <= a < b < o.open.len() implies !((
        #[trigger] o.open[a]).preview && (#[trigger] o.open[b]).preview) by {
            assert(s.open[i].preview);
            if a != i && b != i {
                assert(!(s.open[a].preview && s.open[b].preview));
            } else if a == i {
                assert(!(s.open[a].preview && s.open[b].preview));
            } else {
                assert(!(s.open[a].preview && s.open[b].preview));
            }
        }
        assert(unique_ids(o));
        lemma_find(o, i);
    } else {
        let n = s.open.len() as int;
        assert forall|a: int, b: int| 0 <= a < b < o.open.len() implies o.open[a].id != o.open[b].id by {
            if b == n {
                lemma_max_id(s.open, n, a);
            }
        }
        assert forall|a: int, b: int| 0 <= a < b < o.open.len() implies !((
        #[trigger] o.open[a]).preview && (#[trigger] o.open[b]).preview) by {
            assert(!is_preview()(s.open[a]));
        }
        lemma_find(o, n);
    }
}

/// A preview opened over a tab and then closed gives the tabs back as they
/// were; only its id is used up.
pub proof fn preview_then_close_restores(s: TabsView, path: Seq<char>)
    requires
        unique_ids(s),
        s.find_preview() is None,
        s.find_path(path) is None,
        s.active is Some,
        s.find(s.active->0) is Some,
    ensures
        preview_closed(opened(s, path, false)) == (TabsView { closed: next_id(s).0, ..s }),
{
    let o = opened(s, path, false);
    let n = s.open.len() as int;
    seqs::lemma_first_from(s.open, is_preview(), 0);
    assert forall|j: int| 0 <= j < n implies !is_preview()(#[trigger] o.open[j]) by {
        assert(!is_preview()(s.open[j]));
    }
    seqs::lemma_first_is(o.open, is_preview(), 0, n);
    assert(o.open.remove(n) =~= s.open);
}

/// Closing a preview leaves one preview less behind, so none if there was
/// one, and the other tabs as they were. The focus is then on an open tab,
/// or on none when no tab is left.
pub proof fn closing_preview_leaves_none(s: TabsView)
    requires
        s.find_preview() is Some,
    ensures
        preview_closed(s).open == s.open.remove(s.find_preview()->0),
        previews(preview_closed(s).open, preview_closed(s).open.len() as int) + 1 == previews(
            s.open,
            s.open.len() as int,
        ),
        one_preview(s) ==> preview_closed(s).find_preview() is None,
        unique_ids(s) ==> unique_ids(preview_closed(s)),
        focus_open(preview_closed(s)),
        preview_closed(s).active is None <==> preview_closed(s).open.len() == 0,
{
    let c = preview_closed(s);
    let i = s.find_preview()->0;
    seqs::lemma_first_from(s.open, is_preview(), 0);
    lemma_previews_removed(s.open, i, s.open.len() as int);
    if one_preview(s) {
        assert forall|j: int| 0 <= j < c.open.len() implies !is_preview()(
            #[trigger] c.open[j],
        ) by {
            if j < i {
                assert(!(s.open[j].preview && s.open[i].preview));
            } else {
                assert(!(s.open[i].preview && s.open[j + 1].preview));
            }
        }
        seqs::lemma_first_none(c.open, is_preview(), 0);
    }
    if c.open.len() > 0 {
        lemma_find_some(c, c.open[c.open.len() - 1].id, c.open.len() - 1);
    }
    let rest = s.without(i);
    let restore = s.open[i].previous_tab;
    if restore is Some && rest.find(restore->0) is Some {
        seqs::lemma_first_from(c.open, by_id(restore->0), 0);
        lemma_find_some(c, restore->0, rest.find(restore->0)->0);
    }
}

/// All tabs but one are as they were, and so is the focus.
pub open spec fn others_kept(a: TabsView, b: TabsView, i: int) -> bool {
    &&& a.open.len() == b.open.len()
    &&& a.active == b.active
    &&& a.closed == b.closed
    &&& forall|j: int| 0 <= j < a.open.len() && j != i ==> #[trigger] b.open[j] == a.open[j]
}

/// Opening a file that is open goes to its tab as it is, and makes it a
/// lasting one if asked; else the preview is used for it, if there is one,
/// and a tab of its own is put at the end if there is none. A new tab, and a
/// preview that moves, stands at the start of the file.
pub proof fn opening_shows_the_file(s: TabsView, path: Seq<char>, promote: bool)
    ensures
        ({
            let o = opened(s, path, promote);
            let n = s.open.len() as int;
            &&& s.find_path(path) matches Some(i) ==> {
                &&& s.open[i].path == path
                &&& o.open.len() == n
                &&& o.active == Some(s.open[i].id)
                &&& o.open[i].cursor == s.open[i].cursor
                &&& o.open[i].scroll == s.open[i].scroll
                &&& o.open[i].preview == (s.open[i].preview && !promote)
                &&& !promote ==> o.open == s.open
            }
            &&& s.find_path(path) is None && s.find_preview() is Some ==> {
                let i = s.find_preview()->0;
                &&& s.open[i].preview
                &&& o.open.len() == n
                &&& o.active == Some(s.open[i].id)
                &&& o.open[i].id == s.open[i].id
                &&& o.open[i].path == path
                &&& o.open[i].preview == !promote
                &&& o.open[i].cursor == (Cursor { line: 0, col: 0, preferred_col: 0 })
                &&& o.open[i].scroll == (Scroll { top: 0, top_sub_line: 0 })
                &&& o.open[i].mark is None
                &&& !promote ==> o.open[i].previous_tab == s.open[i].previous_tab
            }
            &&& s.find_path(path) is None && s.find_preview() is None ==> {
                &&& o.open.len() == n + 1
                &&& o.open.subrange(0, n) == s.open
                &&& o.active == Some(o.open[n].id)
                &&& o.open[n].path == path
                &&& o.open[n].preview == !promote
                &&& o.open[n].cursor == (Cursor { line: 0, col: 0, preferred_col: 0 })
                &&& !promote ==> o.open[n].previous_tab == s.active
            }
            &&& (forall|j: int| 0 <= j < n ==> (#[trigger] s.open[j]).path != path)
                <==> s.find_path(path) is None
            &&& (forall|j: int| 0 <= j < n ==> !(#[trigger] s.open[j]).preview)
                <==> s.find_preview() is None
        }),
{
    let n = s.open.len() as int;
    seqs::lemma_first_from(s.open, by_path(path), 0);
    seqs::lemma_first_from(s.open, is_preview(), 0);
    let o = opened(s, path, promote);
    if let Some(i) = s.find_path(path) {
        assert(by_path(path)(s.open[i]));
        assert(s.open[i].path == path);
    } else {
        assert forall|j: int| 0 <= j < n implies (#[trigger] s.open[j]).path != path by {
            assert(!by_path(path)(s.open[j]));
        }
    }
    if let Some(i) = s.find_preview() {
        assert(is_preview()(s.open[i]));
        assert(s.open[i].preview);
    } else {
        assert forall|j: int| 0 <= j < n implies !(#[trigger] s.open[j]).preview by {
            assert(!is_preview()(s.open[j]));
        }
    }
    if s.find_path(path) is None && s.find_preview() is None {
        assert(o.open.subrange(0, n) =~= s.open);
    }
}

/// Closing the preview gives the focus back to the tab that had it before,
/// if that is still open, and else to the last tab.
pub proof fn closing_the_preview_returns_the_focus(s: TabsView, i: int)
    requires
        s.find_preview() == Some(i),
    ensures
        ({
            let c = preview_closed(s);
            let back = s.open[i].previous_tab;
            let n = c.open.len() as int;
            let there = back is Some && exists|j: int|
                0 <= j < n && (#[trigger] c.open[j]).id == back->0;
            &&& c.open == s.open.remove(i)
            &&& there ==> c.active == back
            &&& !there && n > 0 ==> c.active == Some(c.open[n - 1].id)
            &&& n == 0 ==> c.active is None
        }),
{
    seqs::lemma_first_from(s.open, is_preview(), 0);
    let c = preview_closed(s);
    let rest = s.without(i);
    if let Some(id) = s.open[i].previous_tab {
        seqs::lemma_first_from(rest.open, by_id(id), 0);
        if rest.find(id) is Some {
            let k = rest.find(id)->0;
            assert(by_id(id)(rest.open[k]));
            assert(c.open[k].id == id);
        } else {
            assert forall|j: int| 0 <= j < c.open.len() implies (#[trigger] c.open[j]).id
                != id by {
                assert(!by_id(id)(rest.open[j]));
            }
        }
    }
}

} // verus!
