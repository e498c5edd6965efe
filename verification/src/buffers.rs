//! The set of loaded buffers and the requests that edits leave behind.

use vstd::prelude::*;

use crate::edits;
use crate::edits::{BufferView, EditedBuffer};
use crate::maps::{PathMap, PathSet};
use crate::paths::CanonPath;
use crate::tabs::{Tab, TabView, Tabs, TabsView};

verus! {

/// A single replacement to be written to disk.
pub struct PendingSingleReplace {
    pub path: CanonPath,
    pub line: usize,
    pub match_start: usize,
    pub match_end: usize,
    pub original: String,
    pub replacement: String,
}

#[verifier::ext_equal]
pub struct SingleReplaceView {
    pub path: Seq<char>,
    pub line: int,
    pub match_start: int,
    pub match_end: int,
    pub original: Seq<char>,
    pub replacement: Seq<char>,
}

impl View for PendingSingleReplace {
    type V = SingleReplaceView;

    open spec fn view(&self) -> SingleReplaceView {
        SingleReplaceView {
            path: self.path@,
            line: self.line as int,
            match_start: self.match_start as int,
            match_end: self.match_end as int,
            original: self.original@,
            replacement: self.replacement@,
        }
    }
}

/// How many replacements were made in a loaded buffer.
pub struct InMemoryReplace {
    pub path: CanonPath,
    pub count: usize,
}

#[verifier::ext_equal]
pub struct InMemoryView {
    pub path: Seq<char>,
    pub count: int,
}

impl View for InMemoryReplace {
    type V = InMemoryView;

    open spec fn view(&self) -> InMemoryView {
        InMemoryView { path: self.path@, count: self.count as int }
    }
}

/// A replacement through all files under a root but those of loaded
/// buffers.
pub struct PendingReplaceAll {
    pub root: CanonPath,
    pub query: String,
    pub replacement: String,
    pub case_sensitive: bool,
    pub use_regex: bool,
    pub skip_paths: Vec<String>,
}

#[verifier::ext_equal]
pub struct ReplaceAllView {
    pub root: Seq<char>,
    pub query: Seq<char>,
    pub replacement: Seq<char>,
    pub case_sensitive: bool,
    pub use_regex: bool,
    pub skip_paths: Seq<Seq<char>>,
}

pub open spec fn string_views(s: Seq<String>) -> Seq<Seq<char>> {
    Seq::new(s.len(), |i: int| s[i]@)
}

impl View for PendingReplaceAll {
    type V = ReplaceAllView;

    open spec fn view(&self) -> ReplaceAllView {
        ReplaceAllView {
            root: self.root@,
            query: self.query@,
            replacement: self.replacement@,
            case_sensitive: self.case_sensitive,
            use_regex: self.use_regex,
            skip_paths: string_views(self.skip_paths@),
        }
    }
}

/// The loaded buffers.
pub struct BufferEdits {
    pub buffers: PathMap<EditedBuffer>,
    /// Paths to be written to disk.
    pub pending_saves: PathSet,
    pub pending_single_replace: Vec<PendingSingleReplace>,
    pub pending_replace_in_memory: Vec<InMemoryReplace>,
    pub pending_replace_all: Vec<PendingReplaceAll>,
    /// The age of the newest edit in any buffer.
    pub clock: u64,
}

#[verifier::ext_equal]
pub struct EditsView {
    pub buffers: Map<Seq<char>, BufferView>,
    pub pending_saves: Set<Seq<char>>,
    pub pending_single_replace: Seq<SingleReplaceView>,
    pub pending_replace_in_memory: Seq<InMemoryView>,
    pub pending_replace_all: Seq<ReplaceAllView>,
    pub clock: u64,
}

pub open spec fn buffer_views(m: Map<Seq<char>, EditedBuffer>) -> Map<Seq<char>, BufferView> {
    Map::new(|k: Seq<char>| m.dom().contains(k), |k: Seq<char>| m[k]@)
}

pub open spec fn single_views(s: Seq<PendingSingleReplace>) -> Seq<SingleReplaceView> {
    Seq::new(s.len(), |i: int| s[i]@)
}

pub open spec fn in_memory_views(s: Seq<InMemoryReplace>) -> Seq<InMemoryView> {
    Seq::new(s.len(), |i: int| s[i]@)
}

pub open spec fn replace_all_views(s: Seq<PendingReplaceAll>) -> Seq<ReplaceAllView> {
    Seq::new(s.len(), |i: int| s[i]@)
}

impl View for BufferEdits {
    type V = EditsView;

    open spec fn view(&self) -> EditsView {
        EditsView {
            buffers: buffer_views(self.buffers.map()),
            pending_saves: self.pending_saves@,
            pending_single_replace: single_views(self.pending_single_replace@),
            pending_replace_in_memory: in_memory_views(self.pending_replace_in_memory@),
            pending_replace_all: replace_all_views(self.pending_replace_all@),
            clock: self.clock,
        }
    }
}

impl EditsView {
    pub open spec fn has(self, path: Seq<char>) -> bool {
        self.buffers.dom().contains(path)
    }

    /// The edits with another buffer in the place of the one at `path`, and
    /// another age.
    pub open spec fn with_buffer(self, path: Seq<char>, b: BufferView, clock: u64) -> EditsView {
        EditsView { buffers: self.buffers.insert(path, b), clock, ..self }
    }
}

pub open spec fn no_edits() -> EditsView {
    EditsView {
        buffers: Map::empty(),
        pending_saves: Set::empty(),
        pending_single_replace: seq![],
        pending_replace_in_memory: seq![],
        pending_replace_all: seq![],
        clock: 0,
    }
}

impl BufferEdits {
    pub fn new() -> (e: BufferEdits)
        ensures
            e@ == no_edits(),
    {
        let e = BufferEdits {
            buffers: PathMap::new(),
            pending_saves: PathSet::new(),
            pending_single_replace: Vec::new(),
            pending_replace_in_memory: Vec::new(),
            pending_replace_all: Vec::new(),
            clock: 0,
        };
        assert(e@ =~= no_edits());
        e
    }

    pub fn has(&self, path: &str) -> (r: bool)
        ensures
            r == self@.has(path@),
    {
        self.buffers.contains(path)
    }

    pub fn get(&self, path: &str) -> (r: Option<&EditedBuffer>)
        ensures
            r is Some <==> self@.has(path@),
            r is Some ==> r->0@ == self@.buffers[path@],
    {
        self.buffers.get(path)
    }

    /// Takes a buffer out to be changed.
    pub fn take(&mut self, path: &str) -> (r: Option<EditedBuffer>)
        ensures
            r is Some <==> old(self)@.has(path@),
            r is Some ==> r->0@ == old(self)@.buffers[path@],
            final(self)@ == (EditsView {
                buffers: old(self)@.buffers.remove(path@),
                ..old(self)@
            }),
    {
        let r = self.buffers.remove(path);
        assert(self@ =~= EditsView { buffers: old(self)@.buffers.remove(path@), ..old(self)@ });
        r
    }

    /// Puts a buffer in place.
    pub fn put(&mut self, path: String, b: EditedBuffer)
        ensures
            final(self)@ == old(self)@.with_buffer(path@, b@, old(self)@.clock),
    {
        self.buffers.insert(path, b);
        assert(self@ =~= old(self)@.with_buffer(path@, b@, old(self)@.clock));
    }

    pub fn queue_save(&mut self, path: String)
        ensures
            final(self)@ == (EditsView {
                pending_saves: old(self)@.pending_saves.insert(path@),
                ..old(self)@
            }),
    {
        self.pending_saves.insert(path);
    }

    pub fn push_single(&mut self, p: PendingSingleReplace)
        ensures
            final(self)@ == (EditsView {
                pending_single_replace: old(self)@.pending_single_replace.push(p@),
                ..old(self)@
            }),
    {
        self.pending_single_replace.push(p);
        assert(self@ =~= EditsView {
            pending_single_replace: old(self)@.pending_single_replace.push(p@),
            ..old(self)@
        });
    }

    pub fn push_in_memory(&mut self, p: InMemoryReplace)
        ensures
            final(self)@ == (EditsView {
                pending_replace_in_memory: old(self)@.pending_replace_in_memory.push(p@),
                ..old(self)@
            }),
    {
        self.pending_replace_in_memory.push(p);
        assert(self@ =~= EditsView {
            pending_replace_in_memory: old(self)@.pending_replace_in_memory.push(p@),
            ..old(self)@
        });
    }

    pub fn push_replace_all(&mut self, p: PendingReplaceAll)
        ensures
            final(self)@ == (EditsView {
                pending_replace_all: old(self)@.pending_replace_all.push(p@),
                ..old(self)@
            }),
    {
        self.pending_replace_all.push(p);
        assert(self@ =~= EditsView {
            pending_replace_all: old(self)@.pending_replace_all.push(p@),
            ..old(self)@
        });
    }
}

/// Putting back a buffer that was taken out changes that buffer alone.
pub proof fn lemma_take_put(e: EditsView, path: Seq<char>, b: BufferView, clock: u64)
    ensures
        (EditsView { buffers: e.buffers.remove(path), ..e }).with_buffer(path, b, clock)
            == e.with_buffer(path, b, clock),
        e.has(path) ==> e.with_buffer(path, e.buffers[path], e.clock) == e,
{
    assert((EditsView { buffers: e.buffers.remove(path), ..e }).with_buffer(path, b, clock)
        =~= e.with_buffer(path, b, clock));
    if e.has(path) {
        assert(e.with_buffer(path, e.buffers[path], e.clock) =~= e);
    }
}

// ---------------------------------------------------------------------
// The active tab and its buffer
// ---------------------------------------------------------------------

/// What a change of one tab and one buffer makes of them and of the age of
/// the newest edit.
pub type Change = spec_fn(TabView, BufferView, u64) -> (TabView, BufferView, u64);

/// The tab that has the focus and whose buffer is loaded.
pub open spec fn active_loaded(tabs: TabsView, edits: EditsView) -> Option<int> {
    match tabs.active_index() {
        Some(i) => if edits.has(tabs.open[i].path) {
            Some(i)
        } else {
            None
        },
        None => None,
    }
}

/// A change of the active tab and its buffer. Nothing happens when there
/// is no active tab or its buffer is not loaded.
pub open spec fn with_active(tabs: TabsView, edits: EditsView, f: Change) -> (TabsView, EditsView) {
    match active_loaded(tabs, edits) {
        None => (tabs, edits),
        Some(i) => {
            let t = tabs.open[i];
            let (t2, b2, c2) = f(t, edits.buffers[t.path], edits.clock);
            (tabs.with_tab(i, t2), edits.with_buffer(t.path, b2, c2))
        },
    }
}

/// The active tab's index, its tab and its buffer, taken out to be
/// changed.
pub fn take_active(tabs: &Tabs, edits: &mut BufferEdits) -> (r: Option<(usize, Tab, EditedBuffer)>)
    ensures
        r is Some <==> active_loaded(tabs@, old(edits)@) is Some,
        r is None ==> final(edits)@ == old(edits)@,
        r is Some ==> {
            let i = (r->0).0 as int;
            &&& i == active_loaded(tabs@, old(edits)@)->0
            &&& 0 <= i < tabs@.open.len()
            &&& (r->0).1@ == tabs@.open[i]
            &&& (r->0).2@ == old(edits)@.buffers[tabs@.open[i].path]
            &&& final(edits)@ == (EditsView {
                buffers: old(edits)@.buffers.remove(tabs@.open[i].path),
                ..old(edits)@
            })
        },
{
    let i: usize = match tabs.active_index() {
        Some(i) => i,
        None => {
            return None;
        },
    };
    let tab = tabs.at(i).copy();
    if !edits.has(tab.path.as_str()) {
        return None;
    }
    let eb = edits.take(tab.path.as_str()).unwrap();
    Some((i, tab, eb))
}

/// Puts a tab and its buffer back after a change.
pub fn put_active(
    tabs: &mut Tabs,
    edits: &mut BufferEdits,
    i: usize,
    path: String,
    tab: Tab,
    eb: EditedBuffer,
    clock: u64,
)
    requires
        i < old(tabs)@.open.len(),
    ensures
        final(tabs)@ == old(tabs)@.with_tab(i as int, tab@),
        final(edits)@ == old(edits)@.with_buffer(path@, eb@, clock),
{
    tabs.set(i, tab);
    edits.put(path, eb);
    edits.clock = clock;
    assert(edits@ =~= old(edits)@.with_buffer(path@, eb@, clock));
}

// ---------------------------------------------------------------------
// Laws
// ---------------------------------------------------------------------

/// Only tab `i` and the buffer that it shows differ.
pub open spec fn only_there(t: TabsView, e: EditsView, t2: TabsView, e2: EditsView, i: int) -> bool {
    let path = t.open[i].path;
    &&& crate::tabs::others_kept(t, t2, i)
    &&& t2.open[i].path == path
    &&& t2.open[i].id == t.open[i].id
    &&& e2.buffers.dom() == e.buffers.dom()
    &&& forall|p: Seq<char>| p != path ==> #[trigger] e2.buffers[p] == e.buffers[p]
    &&& e2.pending_saves == e.pending_saves
    &&& e2.pending_single_replace == e.pending_single_replace
    &&& e2.pending_replace_in_memory == e.pending_replace_in_memory
    &&& e2.pending_replace_all == e.pending_replace_all
}

/// A change of the active tab is made in that tab and its buffer, and
/// nowhere else; without an active tab whose buffer is loaded none is made.
pub proof fn a_change_is_made_in_the_active_tab(t: TabsView, e: EditsView, f: Change)
    requires
        forall|x: TabView, b: BufferView, c: u64|
            (#[trigger] f(x, b, c)).0.path == x.path && f(x, b, c).0.id == x.id,
    ensures
        ({
            let (t2, e2) = with_active(t, e, f);
            &&& active_loaded(t, e) is None ==> t2 == t && e2 == e
            &&& active_loaded(t, e) is Some ==> {
                let i = active_loaded(t, e)->0;
                let r = f(t.open[i], e.buffers[t.open[i].path], e.clock);
                &&& 0 <= i < t.open.len()
                &&& t.active == Some(t.open[i].id)
                &&& e.has(t.open[i].path)
                &&& t2.open[i] == r.0
                &&& e2.buffers[t.open[i].path] == r.1
                &&& e2.clock == r.2
                &&& only_there(t, e, t2, e2, i)
            }
        }),
{
    if t.active is Some {
        crate::seqs::lemma_first_from(t.open, crate::tabs::by_id(t.active->0), 0);
    }
    if active_loaded(t, e) is Some {
        let i = active_loaded(t, e)->0;
        assert(crate::tabs::by_id(t.active->0)(t.open[i]));
        let (t2, e2) = with_active(t, e, f);
        assert(e2.buffers.dom() =~= e.buffers.dom());
    }
}

} // verus!
