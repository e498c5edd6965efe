//! Buffers as they were loaded from disk, and what parsing says of them.

use vstd::prelude::*;

use crate::maps::PathMap;
use crate::text;

verus! {

/// How far the loading of a file has come.
pub enum LoadState {
    Pending,
    Ready(ropey::Rope),
    Failed,
}

/// The files that were asked for.
pub struct BufferStore {
    pub loaded: PathMap<LoadState>,
}

#[verifier::ext_equal]
pub enum LoadView {
    Pending,
    Ready(Seq<char>),
    Failed,
}

impl View for LoadState {
    type V = LoadView;

    open spec fn view(&self) -> LoadView {
        match self {
            LoadState::Pending => LoadView::Pending,
            LoadState::Ready(rope) => LoadView::Ready(text::rope_text(*rope)),
            LoadState::Failed => LoadView::Failed,
        }
    }
}

/// The text of each file that has been loaded.
pub open spec fn loaded_texts(m: Map<Seq<char>, LoadView>) -> Map<Seq<char>, Seq<char>> {
    Map::new(
        |k: Seq<char>| m.dom().contains(k) && m[k] is Ready,
        |k: Seq<char>| m[k]->Ready_0,
    )
}

impl View for BufferStore {
    type V = Map<Seq<char>, LoadView>;

    open spec fn view(&self) -> Map<Seq<char>, LoadView> {
        Map::new(
            |k: Seq<char>| self.loaded.map().dom().contains(k),
            |k: Seq<char>| self.loaded.map()[k]@,
        )
    }
}

impl BufferStore {
    /// The text of each file that has been loaded.
    pub open spec fn texts(self) -> Map<Seq<char>, Seq<char>> {
        loaded_texts(self@)
    }

    pub fn new() -> (s: BufferStore)
        ensures
            s@ == Map::<Seq<char>, LoadView>::empty(),
            s.texts() == Map::<Seq<char>, Seq<char>>::empty(),
    {
        let s = BufferStore { loaded: PathMap::new() };
        assert(s@ =~= Map::<Seq<char>, LoadView>::empty());
        assert(s.texts() =~= Map::<Seq<char>, Seq<char>>::empty());
        s
    }

    pub fn ready(&self, path: &str) -> (r: Option<&ropey::Rope>)
        ensures
            r is Some <==> self.texts().dom().contains(path@),
            r is Some ==> text::rope_text(*r->0) == self.texts()[path@],
    {
        match self.loaded.get(path) {
            Some(s) => match s {
                LoadState::Ready(rope) => Some(rope),
                _ => None,
            },
            None => None,
        }
    }

    pub fn set_ready(&mut self, path: String, rope: ropey::Rope)
        ensures
            final(self)@ == old(self)@.insert(path@, LoadView::Ready(text::rope_text(rope))),
            final(self).texts() == old(self).texts().insert(path@, text::rope_text(rope)),
    {
        self.loaded.insert(path, LoadState::Ready(rope));
        assert(self@ =~= old(self)@.insert(path@, LoadView::Ready(text::rope_text(rope))));
        assert(self.texts() =~= old(self).texts().insert(path@, text::rope_text(rope)));
    }
}

/// The indentation that the parse of each buffer suggests, line by line.
pub struct SyntaxStates {
    pub by_path: PathMap<Vec<Option<String>>>,
}

pub open spec fn indent_of(
    m: Map<Seq<char>, Vec<Option<String>>>,
    path: Seq<char>,
    line: int,
) -> Option<Seq<char>> {
    if m.dom().contains(path) && 0 <= line < m[path].len() {
        match m[path][line] {
            Some(s) => Some(s@),
            None => None,
        }
    } else {
        None
    }
}

impl SyntaxStates {
    pub open spec fn indent(self, path: Seq<char>, line: int) -> Option<Seq<char>> {
        indent_of(self.by_path.map(), path, line)
    }

    pub fn new() -> (s: SyntaxStates)
        ensures
            s.by_path.map() == Map::<Seq<char>, Vec<Option<String>>>::empty(),
            forall|p: Seq<char>, l: int| #[trigger] s.indent(p, l) is None,
    {
        SyntaxStates { by_path: PathMap::new() }
    }

    /// The indentation suggested for a line.
    pub fn suggest_indent(&self, path: &str, line: usize) -> (r: Option<String>)
        ensures
            r is Some <==> self.indent(path@, line as int) is Some,
            r is Some ==> r->0@ == self.indent(path@, line as int)->0,
    {
        match self.by_path.get(path) {
            Some(v) => {
                if line < v.len() {
                    match &v[line] {
                        Some(s) => Some(s.clone()),
                        None => None,
                    }
                } else {
                    None
                }
            },
            None => None,
        }
    }
}

} // verus!
