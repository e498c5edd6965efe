//! Incremental search in a buffer.

use vstd::prelude::*;

use crate::buffers;
use crate::buffers::{BufferEdits, EditsView};
use crate::chars;
use crate::chars::char_lower;
use crate::columns;
use crate::columns::{char_to_cursor, cursor_to_char, Cursor, Scroll};
use crate::command::{Command, DispatchOutcome};
use crate::edit;
use crate::input;
use crate::input::{InputView, TextInput};
use crate::jumps;
use crate::jumps::{JumpListState, JumpPosition, JumpView, JumpsView};
use crate::kill;
use crate::seqs;
use crate::tabs;
use crate::tabs::{Tab, TabView, Tabs, TabsView};
use crate::text;
use crate::text::{rope_char, rope_len};

verus! {

/// A place where the query occurs.
#[derive(Clone, Copy, Debug, PartialEq, Eq, Structural)]
pub struct IsearchMatch {
    pub char_start: usize,
    pub char_end: usize,
}

/// A search under way.
pub struct IsearchState {
    pub query: TextInput,
    /// Where the search started.
    pub origin_cursor: Cursor,
    pub origin_scroll: Scroll,
    pub last_query: Option<String>,
    pub matches: Vec<IsearchMatch>,
    pub match_idx: Option<usize>,
    /// No match lies ahead: the next step starts from the top.
    pub failed: bool,
}

#[verifier::ext_equal]
pub struct IsearchView {
    pub query: InputView,
    pub origin_cursor: Cursor,
    pub origin_scroll: Scroll,
    pub last_query: Option<Seq<char>>,
    pub matches: Seq<IsearchMatch>,
    pub match_idx: Option<usize>,
    pub failed: bool,
}

impl View for IsearchState {
    type V = IsearchView;

    open spec fn view(&self) -> IsearchView {
        IsearchView {
            query: self.query@,
            origin_cursor: self.origin_cursor,
            origin_scroll: self.origin_scroll,
            last_query: kill::opt_text(self.last_query),
            matches: self.matches@,
            match_idx: self.match_idx,
            failed: self.failed,
        }
    }
}

pub open spec fn opt_view(s: Option<IsearchState>) -> Option<IsearchView> {
    match s {
        Some(x) => Some(x@),
        None => None,
    }
}

// ---------------------------------------------------------------------
// Matches
// ---------------------------------------------------------------------

/// A string in lower case.
pub open spec fn folded(s: Seq<char>) -> Seq<char>
    decreases s.len(),
{
    if s.len() == 0 {
        seq![]
    } else {
        folded(s.drop_last()) + chars::lower(s.last())
    }
}

/// The query occurs at `i`, whatever the case of the text.
pub open spec fn occurs(t: Seq<char>, q: Seq<char>, i: int) -> bool {
    &&& 0 <= i
    &&& i + q.len() <= t.len()
    &&& forall|j: int| 0 <= j < q.len() ==> chars::lower(#[trigger] t[i + j])[0] == q[j]
}

/// The places from `i` on where the query occurs, from left to right, none
/// within the one before it.
pub open spec fn occurrences(t: Seq<char>, q: Seq<char>, i: int) -> Seq<IsearchMatch>
    decreases t.len() - i,
{
    if q.len() == 0 || i < 0 || i + q.len() > t.len() {
        seq![]
    } else if occurs(t, q, i) {
        seq![
            IsearchMatch { char_start: i as usize, char_end: (i + q.len()) as usize },
        ] + occurrences(t, q, i + q.len())
    } else {
        occurrences(t, q, i + 1)
    }
}

/// All places where a query occurs in a text.
pub open spec fn all_matches(t: Seq<char>, query: Seq<char>) -> Seq<IsearchMatch> {
    occurrences(t, folded(query), 0)
}

/// Every match is an occurrence, and matches follow each other without
/// overlap.
pub proof fn matches_occur_in_order(t: Seq<char>, q: Seq<char>, i: int)
    requires
        t.len() <= usize::MAX,
        0 <= i,
    ensures
        forall|k: int|
            0 <= k < occurrences(t, q, i).len() ==> occurs(
                t,
                q,
                (#[trigger] occurrences(t, q, i)[k]).char_start as int,
            ) && occurrences(t, q, i)[k].char_start >= i && occurrences(t, q, i)[k].char_end
                == occurrences(t, q, i)[k].char_start + q.len(),
        forall|a: int, b: int|
            0 <= a < b < occurrences(t, q, i).len() ==> occurrences(t, q, i)[a].char_end
                <= occurrences(t, q, i)[b].char_start,
    decreases t.len() - i,
{
    if q.len() == 0 || i + q.len() > t.len() {
        assert(occurrences(t, q, i).len() == 0);
    } else if occurs(t, q, i) {
        let rest = occurrences(t, q, i + q.len());
        let all = occurrences(t, q, i);
        matches_occur_in_order(t, q, i + q.len());
        assert forall|k: int| 0 <= k < all.len() implies occurs(
            t,
            q,
            (#[trigger] all[k]).char_start as int,
        ) && all[k].char_start >= i && all[k].char_end == all[k].char_start + q.len() by {
            if k > 0 {
                assert(all[k] == rest[k - 1]);
            }
        }
        assert forall|a: int, b: int| 0 <= a < b < all.len() implies all[a].char_end
            <= all[b].char_start by {
            assert(all[b] == rest[b - 1]);
            if a > 0 {
                assert(all[a] == rest[a - 1]);
            }
        }
    } else {
        matches_occur_in_order(t, q, i + 1);
        assert(occurrences(t, q, i) == occurrences(t, q, i + 1));
        let all = occurrences(t, q, i);
        assert forall|k: int| 0 <= k < all.len() implies occurs(
            t,
            q,
            (#[trigger] all[k]).char_start as int,
        ) && all[k].char_start >= i && all[k].char_end == all[k].char_start + q.len() by {
            assert(occurrences(t, q, i + 1)[k].char_start >= i + 1);
        }
    }
}

/// No occurrence is passed over: each is a match, or starts within one.
pub proof fn every_occurrence_is_covered(t: Seq<char>, q: Seq<char>, i: int, p: int)
    requires
        t.len() <= usize::MAX,
        q.len() > 0,
        0 <= i <= p,
        occurs(t, q, p),
    ensures
        exists|k: int|
            0 <= k < occurrences(t, q, i).len() && (#[trigger] occurrences(t, q, i)[k]).char_start
                <= p < occurrences(t, q, i)[k].char_end,
    decreases t.len() - i,
{
    let all = occurrences(t, q, i);
    if occurs(t, q, i) {
        if p < i + q.len() {
            assert(all[0].char_start <= p < all[0].char_end);
        } else {
            let rest = occurrences(t, q, i + q.len());
            every_occurrence_is_covered(t, q, i + q.len(), p);
            let k = choose|k: int|
                0 <= k < rest.len() && (#[trigger] rest[k]).char_start <= p < rest[k].char_end;
            assert(all[k + 1] == rest[k]);
        }
    } else {
        every_occurrence_is_covered(t, q, i + 1, p);
        assert(all == occurrences(t, q, i + 1));
    }
}

pub fn fold(s: &str) -> (v: Vec<char>)
    ensures
        v@ == folded(s@),
{
    let n: usize = s.unicode_len();
    let mut v: Vec<char> = Vec::new();
    let mut i: usize = 0;
    assert(s@.subrange(0, 0) =~= Seq::<char>::empty());
    while i < n
        invariant
            i <= n,
            n == s@.len(),
            v@ == folded(s@.subrange(0, i as int)),
        decreases n - i,
    {
        let mut low = char_lower(s.get_char(i));
        assert(s@.subrange(0, i + 1).drop_last() =~= s@.subrange(0, i as int));
        assert(s@.subrange(0, i + 1).last() == s@[i as int]);
        v.append(&mut low);
        i = i + 1;
    }
    assert(s@.subrange(0, n as int) =~= s@);
    v
}

fn occurs_at(rope: &ropey::Rope, q: &Vec<char>, i: usize) -> (r: bool)
    requires
        i + q.len() <= text::rope_text(*rope).len(),
    ensures
        r == occurs(text::rope_text(*rope), q@, i as int),
{
    let total: usize = rope_len(rope);
    let mut j: usize = 0;
    while j < q.len()
        invariant
            j <= q.len(),
            total == text::rope_text(*rope).len(),
            i + q.len() <= total,
            forall|k: int|
                0 <= k < j ==> chars::lower(#[trigger] text::rope_text(*rope)[i + k])[0] == q[k],
        decreases q.len() - j,
    {
        let low = char_lower(rope_char(rope, i + j));
        if low[0] != q[j] {
            assert(chars::lower(text::rope_text(*rope)[i + j])[0] != q[j as int]);
            return false;
        }
        j = j + 1;
    }
    true
}

/// Finds all places where a query occurs, whatever the case.
pub fn find_all_matches(rope: &ropey::Rope, query: &str) -> (v: Vec<IsearchMatch>)
    ensures
        v@ == all_matches(text::rope_text(*rope), query@),
{
    let ghost t = text::rope_text(*rope);
    let q = fold(query);
    let total: usize = rope_len(rope);
    let n: usize = q.len();
    let mut out: Vec<IsearchMatch> = Vec::new();
    if n == 0 || n > total {
        assert(out@ =~= all_matches(t, query@));
        return out;
    }
    let mut i: usize = 0;
    assert(out@ + occurrences(t, q@, 0) =~= all_matches(t, query@));
    while i <= total - n
        invariant
            0 < n <= total,
            i <= total,
            n == q.len(),
            q@ == folded(query@),
            total == t.len(),
            t == text::rope_text(*rope),
            out@ + occurrences(t, q@, i as int) == all_matches(t, query@),
        decreases total - i,
    {
        if occurs_at(rope, &q, i) {
            let ghost was = out@;
            let ghost rest = occurrences(t, q@, i + n);
            out.push(IsearchMatch { char_start: i, char_end: i + n });
            assert(out@ + rest =~= was + occurrences(t, q@, i as int));
            i = i + n;
        } else {
            i = i + 1;
        }
    }
    assert(out@ =~= all_matches(t, query@));
    out
}

// ---------------------------------------------------------------------
// The search
// ---------------------------------------------------------------------

/// A search that has just begun.
pub open spec fn started(t: TabView) -> IsearchView {
    IsearchView {
        query: input::input_of(seq![]),
        origin_cursor: t.cursor,
        origin_scroll: t.scroll,
        last_query: t.last_search,
        matches: seq![],
        match_idx: None,
        failed: false,
    }
}

/// What the search key does: it starts a search in the active buffer,
/// unless one is under way.
pub open spec fn searching(
    s: Option<IsearchView>,
    tabs: TabsView,
    e: EditsView,
) -> Option<IsearchView> {
    if s is Some {
        s
    } else {
        match buffers::active_loaded(tabs, e) {
            Some(i) => Some(started(tabs.open[i])),
            None => None,
        }
    }
}

/// Starts a search in the active buffer.
pub fn in_buffer_search(isearch: &mut Option<IsearchState>, tabs: &Tabs, edits: &BufferEdits)
    ensures
        opt_view(*final(isearch)) == searching(opt_view(*old(isearch)), tabs@, edits@),
{
    if isearch.is_some() {
        return;
    }
    if let Some(i) = tabs.active_index() {
        let t = tabs.at(i);
        if edits.has(t.path.as_str()) {
            let last_query = match &t.last_search {
                Some(s) => Some(s.clone()),
                None => None,
            };
            let st = IsearchState {
                query: TextInput::new(""),
                origin_cursor: t.cursor,
                origin_scroll: t.scroll,
                last_query,
                matches: Vec::new(),
                match_idx: None,
                failed: false,
            };
            proof {
                reveal_strlit("");
                assert(""@ =~= Seq::<char>::empty());
                assert(st@ =~= started(t@));
            }
            *isearch = Some(st);
        }
    }
}

/// The tab remembers what was searched for.
pub open spec fn stashed(t: TabView, s: IsearchView) -> TabView {
    TabView {
        last_search: if s.query.text().len() > 0 {
            Some(s.query.text())
        } else if s.last_query is Some {
            s.last_query
        } else {
            t.last_search
        },
        ..t
    }
}

fn stash_last_search(tab: &mut Tab, state: &IsearchState)
    ensures
        final(tab)@ == stashed(old(tab)@, state@),
{
    if !state.query.is_empty() {
        tab.last_search = Some(state.query.text());
    } else {
        match &state.last_query {
            Some(q) => {
                tab.last_search = Some(q.clone());
            },
            None => {},
        }
    }
}

/// The tabs after a search was given up: cursor and view are back where
/// the search started.
pub open spec fn given_up(s: Option<IsearchView>, tabs: TabsView) -> TabsView {
    match s {
        None => tabs,
        Some(st) => match tabs.active_index() {
            Some(i) => tabs.with_tab(
                i,
                stashed(
                    TabView { cursor: st.origin_cursor, scroll: st.origin_scroll, ..tabs.open[i] },
                    st,
                ),
            ),
            None => tabs,
        },
    }
}

/// Gives the search up.
pub fn deactivate(isearch: &mut Option<IsearchState>, tabs: &mut Tabs)
    ensures
        opt_view(*final(isearch)) is None,
        final(tabs)@ == given_up(opt_view(*old(isearch)), old(tabs)@),
{
    let st = match isearch.take() {
        Some(s) => s,
        None => {
            return;
        },
    };
    if let Some(i) = tabs.active_index() {
        let mut t = tabs.at(i).copy();
        t.cursor = st.origin_cursor;
        t.scroll = st.origin_scroll;
        stash_last_search(&mut t, &st);
        tabs.set(i, t);
    }
}

/// The place where a search started.
pub open spec fn origin(t: TabView, s: IsearchView) -> JumpView {
    JumpView {
        path: t.path,
        line: s.origin_cursor.line,
        col: s.origin_cursor.col,
        scroll: s.origin_scroll,
    }
}

/// The search moved the cursor.
pub open spec fn moved_away(t: TabView, s: IsearchView) -> bool {
    t.cursor.line != s.origin_cursor.line || t.cursor.col != s.origin_cursor.col
}

/// What accepting a search does: the cursor stays, and where the search
/// started can be jumped back to.
pub open spec fn accepted(
    s: Option<IsearchView>,
    tabs: TabsView,
    j: JumpsView,
) -> (TabsView, JumpsView) {
    match s {
        None => (tabs, j),
        Some(st) => match tabs.active_index() {
            Some(i) => (
                tabs.with_tab(i, stashed(tabs.open[i], st)),
                if moved_away(tabs.open[i], st) {
                    jumps::recorded(j, origin(tabs.open[i], st))
                } else {
                    j
                },
            ),
            None => (tabs, j),
        },
    }
}

fn accept(isearch: &mut Option<IsearchState>, tabs: &mut Tabs, jumps: &mut JumpListState)
    ensures
        opt_view(*final(isearch)) is None,
        (final(tabs)@, final(jumps)@) == accepted(opt_view(*old(isearch)), old(tabs)@, old(jumps)@),
{
    let st = match isearch.take() {
        Some(s) => s,
        None => {
            return;
        },
    };
    if let Some(i) = tabs.active_index() {
        let mut t = tabs.at(i).copy();
        if t.cursor.line != st.origin_cursor.line || t.cursor.col != st.origin_cursor.col {
            jumps.record(
                JumpPosition {
                    path: t.path.copy(),
                    line: st.origin_cursor.line,
                    col: st.origin_cursor.col,
                    scroll: st.origin_scroll,
                },
            );
        }
        stash_last_search(&mut t, &st);
        tabs.set(i, t);
    }
}

pub open spec fn from_pos(p: int) -> spec_fn(IsearchMatch) -> bool {
    |m: IsearchMatch| m.char_start >= p
}

/// The tabs with the cursor of the active one at a position of its text.
pub open spec fn cursor_at(tabs: TabsView, e: EditsView, pos: int) -> TabsView {
    match buffers::active_loaded(tabs, e) {
        Some(i) => tabs.with_tab(
            i,
            edit::at_cursor(
                tabs.open[i],
                columns::index_cursor(e.buffers[tabs.open[i].path].text, pos),
            ),
        ),
        None => tabs,
    }
}

/// The search after its query changed: all matches are found anew, and the
/// cursor goes to the first one that is not behind it.
pub open spec fn researched(
    s: IsearchView,
    tabs: TabsView,
    e: EditsView,
) -> (IsearchView, TabsView) {
    match buffers::active_loaded(tabs, e) {
        None => (s, tabs),
        Some(i) => {
            let t = tabs.open[i];
            let text = e.buffers[t.path].text;
            let found = all_matches(text, s.query.text());
            match seqs::first_index(found, from_pos(columns::cursor_index(text, t.cursor))) {
                Some(k) => (
                    IsearchView {
                        matches: found,
                        match_idx: Some(k as usize),
                        failed: false,
                        ..s
                    },
                    cursor_at(tabs, e, found[k].char_start as int),
                ),
                None => (
                    IsearchView { matches: found, match_idx: None, failed: true, ..s },
                    tabs,
                ),
            }
        },
    }
}

fn first_forward(matches: &Vec<IsearchMatch>, pos: usize) -> (r: Option<usize>)
    ensures
        match r {
            Some(k) => seqs::first_index(matches@, from_pos(pos as int)) == Some(k as int) && k
                < matches.len(),
            None => seqs::first_index(matches@, from_pos(pos as int)) is None,
        },
{
    let n: usize = matches.len();
    let mut i: usize = 0;
    while i < n
        invariant
            i <= n,
            n == matches.len(),
            forall|j: int| 0 <= j < i ==> !from_pos(pos as int)(#[trigger] matches@[j]),
        decreases n - i,
    {
        if matches[i].char_start >= pos {
            proof {
                seqs::lemma_first_is(matches@, from_pos(pos as int), 0, i as int);
            }
            return Some(i);
        }
        i = i + 1;
    }
    proof {
        seqs::lemma_first_none(matches@, from_pos(pos as int), 0);
    }
    None
}

fn recompute_and_jump(state: &mut IsearchState, tabs: &mut Tabs, edits: &BufferEdits)
    ensures
        (final(state)@, final(tabs)@) == researched(old(state)@, old(tabs)@, edits@),
{
    let idx: usize = match tabs.active_index() {
        Some(i) => i,
        None => {
            return;
        },
    };
    let mut t = tabs.at(idx).copy();
    let eb = match edits.get(t.path.as_str()) {
        Some(b) => b,
        None => {
            return;
        },
    };
    let query = state.query.text();
    state.matches = find_all_matches(&eb.rope, query.as_str());
    let total: usize = rope_len(&eb.rope);
    let pos: usize = cursor_to_char(&t.cursor, &eb.rope);
    match first_forward(&state.matches, pos) {
        Some(k) => {
            state.match_idx = Some(k);
            state.failed = false;
            proof {
                matches_occur_in_order(text::rope_text(eb.rope), folded(query@), 0);
            }
            t.cursor = char_to_cursor(state.matches[k].char_start, &eb.rope);
            tabs.set(idx, t);
        },
        None => {
            state.match_idx = None;
            state.failed = true;
        },
    }
}

/// What deleting a character of the query does. With the query empty the
/// cursor is back where the search started.
pub open spec fn shortened(
    s: IsearchView,
    tabs: TabsView,
    e: EditsView,
) -> (IsearchView, TabsView) {
    if s.query.before.len() == 0 {
        (s, tabs)
    } else {
        let s1 = IsearchView { query: input::backspaced(s.query), ..s };
        if s1.query.text().len() == 0 {
            (
                IsearchView { matches: seq![], match_idx: None, failed: false, ..s1 },
                match tabs.active_index() {
                    Some(i) => tabs.with_tab(
                        i,
                        TabView {
                            cursor: s.origin_cursor,
                            scroll: s.origin_scroll,
                            ..tabs.open[i]
                        },
                    ),
                    None => tabs,
                },
            )
        } else {
            researched(s1, tabs, e)
        }
    }
}

fn pop_and_search(state: &mut IsearchState, tabs: &mut Tabs, edits: &BufferEdits)
    ensures
        (final(state)@, final(tabs)@) == shortened(old(state)@, old(tabs)@, edits@),
{
    if !state.query.delete_back() {
        return;
    }
    if state.query.is_empty() {
        state.matches = Vec::new();
        state.match_idx = None;
        state.failed = false;
        assert(state@.matches =~= Seq::<IsearchMatch>::empty());
        if let Some(i) = tabs.active_index() {
            let mut t = tabs.at(i).copy();
            t.cursor = state.origin_cursor;
            t.scroll = state.origin_scroll;
            tabs.set(i, t);
        }
        return;
    }
    recompute_and_jump(state, tabs, edits);
}

/// The cursor of the active tab put at match `k`, as far as it lies in the
/// text.
pub open spec fn at_match(s: IsearchView, tabs: TabsView, e: EditsView, k: int) -> TabsView {
    match buffers::active_loaded(tabs, e) {
        Some(i) => {
            let n = e.buffers[tabs.open[i].path].text.len();
            let p = s.matches[k].char_start as int;
            cursor_at(
                tabs,
                e,
                if p < n {
                    p
                } else {
                    n as int
                },
            )
        },
        None => tabs,
    }
}

fn jump_to_match(state: &IsearchState, tabs: &mut Tabs, edits: &BufferEdits, k: usize)
    requires
        k < state.matches.len(),
    ensures
        final(tabs)@ == at_match(state@, old(tabs)@, edits@, k as int),
{
    if let Some(i) = tabs.active_index() {
        let mut t = tabs.at(i).copy();
        if let Some(eb) = edits.get(t.path.as_str()) {
            let n: usize = rope_len(&eb.rope);
            let p: usize = state.matches[k].char_start;
            t.cursor = char_to_cursor(if p < n { p } else { n }, &eb.rope);
            tabs.set(i, t);
        }
    }
}

/// What the search key does during a search: it recalls the last query,
/// or goes to the next match, or after the last one fails once and then
/// starts from the top.
pub open spec fn advanced(
    s: IsearchView,
    tabs: TabsView,
    e: EditsView,
) -> (IsearchView, TabsView) {
    if s.query.text().len() == 0 {
        match s.last_query {
            Some(q) => researched(IsearchView { query: input::input_of(q), ..s }, tabs, e),
            None => (s, tabs),
        }
    } else if s.failed {
        if s.matches.len() == 0 {
            (s, tabs)
        } else {
            (
                IsearchView { failed: false, match_idx: Some(0), ..s },
                at_match(s, tabs, e, 0),
            )
        }
    } else {
        match s.match_idx {
            None => researched(s, tabs, e),
            Some(k) => if k + 1 >= s.matches.len() {
                (IsearchView { failed: true, ..s }, tabs)
            } else {
                (
                    IsearchView { match_idx: Some((k + 1) as usize), ..s },
                    at_match(s, tabs, e, k + 1),
                )
            },
        }
    }
}

fn advance(state: &mut IsearchState, tabs: &mut Tabs, edits: &BufferEdits)
    ensures
        (final(state)@, final(tabs)@) == advanced(old(state)@, old(tabs)@, edits@),
{
    if state.query.is_empty() {
        let recall = match &state.last_query {
            Some(q) => Some(q.clone()),
            None => None,
        };
        if let Some(q) = recall {
            state.query.set(q.as_str());
            recompute_and_jump(state, tabs, edits);
        }
        return;
    }
    let n: usize = state.matches.len();
    if state.failed {
        if n == 0 {
            return;
        }
        state.failed = false;
        state.match_idx = Some(0);
        jump_to_match(state, tabs, edits, 0);
        return;
    }
    match state.match_idx {
        None => recompute_and_jump(state, tabs, edits),
        Some(k) => {
            if n == 0 || k >= n - 1 {
                state.failed = true;
                return;
            }
            state.match_idx = Some(k + 1);
            jump_to_match(state, tabs, edits, k + 1);
        },
    }
}

/// What a command does while a search may be under way. The last part
/// tells whether the command was used up; if not it runs as usual, with
/// the search accepted first.
pub open spec fn overlay(
    cmd: Command,
    s: Option<IsearchView>,
    tabs: TabsView,
    e: EditsView,
    j: JumpsView,
) -> (Option<IsearchView>, TabsView, JumpsView, bool) {
    match s {
        None => (s, tabs, j, false),
        Some(st) => match cmd {
            Command::InsertChar(c) => {
                let (s2, t2) = researched(
                    IsearchView { query: input::typed(st.query, c), ..st },
                    tabs,
                    e,
                );
                (Some(s2), t2, j, true)
            },
            Command::DeleteBack => {
                let (s2, t2) = shortened(st, tabs, e);
                (Some(s2), t2, j, true)
            },
            Command::InsertNewline => {
                let (t2, j2) = accepted(s, tabs, j);
                (None, t2, j2, true)
            },
            Command::Abort => (None, given_up(s, tabs), j, true),
            Command::InBufferSearch => {
                let (s2, t2) = advanced(st, tabs, e);
                (Some(s2), t2, j, true)
            },
            Command::Quit => (s, tabs, j, false),
            Command::Suspend => (s, tabs, j, false),
            _ => {
                let (t2, j2) = accepted(s, tabs, j);
                (None, t2, j2, false)
            },
        },
    }
}

/// Routes a command through the search, if one is under way.
pub fn run_overlay_command(
    cmd: Command,
    isearch: &mut Option<IsearchState>,
    tabs: &mut Tabs,
    edits: &BufferEdits,
    jumps: &mut JumpListState,
) -> (r: Option<DispatchOutcome>)
    ensures
        (opt_view(*final(isearch)), final(tabs)@, final(jumps)@, r is Some) == overlay(
            cmd,
            opt_view(*old(isearch)),
            old(tabs)@,
            edits@,
            old(jumps)@,
        ),
        r is Some ==> r->0 is Continue,
{
    if isearch.is_none() {
        return None;
    }
    match cmd {
        Command::InsertChar(c) => {
            let mut st = isearch.take().unwrap();
            st.query.insert_char(c);
            recompute_and_jump(&mut st, tabs, edits);
            *isearch = Some(st);
            Some(DispatchOutcome::Continue)
        },
        Command::DeleteBack => {
            let mut st = isearch.take().unwrap();
            pop_and_search(&mut st, tabs, edits);
            *isearch = Some(st);
            Some(DispatchOutcome::Continue)
        },
        Command::InsertNewline => {
            accept(isearch, tabs, jumps);
            Some(DispatchOutcome::Continue)
        },
        Command::Abort => {
            deactivate(isearch, tabs);
            Some(DispatchOutcome::Continue)
        },
        Command::InBufferSearch => {
            let mut st = isearch.take().unwrap();
            advance(&mut st, tabs, edits);
            *isearch = Some(st);
            Some(DispatchOutcome::Continue)
        },
        Command::Quit | Command::Suspend => None,
        _ => {
            accept(isearch, tabs, jumps);
            None
        },
    }
}

/// Giving a search up undoes it: cursor and view are back where they were
/// when it started, whatever was typed in between.
pub proof fn abort_returns_to_origin(s: IsearchView, tabs: TabsView, e: EditsView, j: JumpsView)
    requires
        tabs.active_index() is Some,
    ensures
        ({
            let (s2, t2, j2, used) = overlay(Command::Abort, Some(s), tabs, e, j);
            let i = tabs.active_index()->0;
            &&& used
            &&& s2 is None
            &&& j2 == j
            &&& t2.open[i].cursor == s.origin_cursor
            &&& t2.open[i].scroll == s.origin_scroll
        }),
{
    seqs::lemma_first_from(tabs.open, crate::tabs::by_id(tabs.active->0), 0);
}

/// Lower case goes character by character.
pub proof fn folding_goes_by_characters(a: Seq<char>, b: Seq<char>, c: char)
    ensures
        folded(a + b) == folded(a) + folded(b),
        folded(seq![c]) == chars::lower(c),
        folded(Seq::<char>::empty()) == Seq::<char>::empty(),
    decreases b.len(),
{
    reveal_with_fuel(folded, 2);
    assert(seq![c].drop_last() =~= Seq::<char>::empty());
    assert(folded(seq![c]) =~= chars::lower(c));
    if b.len() == 0 {
        assert(a + b =~= a);
        assert(folded(a) + folded(b) =~= folded(a));
    } else {
        folding_goes_by_characters(a, b.drop_last(), c);
        assert((a + b).drop_last() =~= a + b.drop_last());
        assert(folded(a + b) =~= folded(a) + folded(b));
    }
}

/// The matches of a query are places where it stands in the text, letter by
/// letter and whatever their case, in order and apart; and wherever it
/// stands there is a match, or one that begins before and reaches over.
pub proof fn matches_are_where_the_query_stands(t: Seq<char>, query: Seq<char>)
    requires
        t.len() <= usize::MAX,
    ensures
        ({
            let q = folded(query);
            let found = all_matches(t, query);
            &&& q.len() == 0 ==> found.len() == 0
            &&& forall|k: int|
                0 <= k < found.len() ==> (#[trigger] found[k]).char_end == found[k].char_start
                    + q.len() && found[k].char_end <= t.len()
            &&& forall|k: int, j: int|
                0 <= k < found.len() && 0 <= j < q.len() ==> chars::lower(
                    t[#[trigger] found[k].char_start + j],
                )[0] == #[trigger] q[j]
            &&& forall|a: int, b: int|
                0 <= a < b < found.len() ==> found[a].char_end <= found[b].char_start
            &&& forall|p: int|
                q.len() > 0 && 0 <= p && p + q.len() <= t.len() && #[trigger] stands_at(t, q, p)
                    ==> exists|k: int|
                    0 <= k < found.len() && (#[trigger] found[k]).char_start <= p
                        < found[k].char_end
        }),
{
    let q = folded(query);
    let found = all_matches(t, query);
    matches_occur_in_order(t, q, 0);
    assert forall|k: int, j: int| 0 <= k < found.len() && 0 <= j < q.len() implies chars::lower(
        t[#[trigger] found[k].char_start + j],
    )[0] == #[trigger] q[j] by {
        let i = found[k].char_start as int;
        assert(occurs(t, q, i));
        assert(chars::lower(t[i + j])[0] == q[j]);
    }
    assert forall|p: int|
        q.len() > 0 && 0 <= p && p + q.len() <= t.len() && #[trigger] stands_at(
            t,
            q,
            p,
        ) implies exists|k: int|
        0 <= k < found.len() && (#[trigger] found[k]).char_start <= p < found[k].char_end by {
        assert forall|j: int| 0 <= j < q.len() implies chars::lower(#[trigger] t[p + j])[0]
            == q[j] by {
            assert(t.subrange(p, p + q.len())[j] == t[p + j]);
        }
        every_occurrence_is_covered(t, q, 0, p);
    }
}

/// The characters from `p` on are those of `q`, whatever their case.
pub open spec fn stands_at(t: Seq<char>, q: Seq<char>, p: int) -> bool {
    forall|j: int|
        0 <= j < q.len() ==> chars::lower(#[trigger] t.subrange(p, p + q.len())[j])[0] == q[j]
}

/// What a search does with its cursor: the first match that starts at the
/// cursor or ahead of it is chosen, with no other in between, and the
/// cursor goes there; without one the search fails and the cursor stays.
pub open spec fn looked_ahead(
    s: IsearchView,
    tabs: TabsView,
    t2: TabsView,
    i: int,
    text: Seq<char>,
) -> bool {
    let pos = columns::cursor_index(text, tabs.open[i].cursor);
    if exists|k: int| 0 <= k < s.matches.len() && (#[trigger] s.matches[k]).char_start >= pos {
        &&& s.match_idx is Some
        &&& !s.failed
        &&& s.match_idx->0 < s.matches.len()
        &&& s.matches[s.match_idx->0 as int].char_start >= pos
        &&& forall|k: int|
            0 <= k < s.matches.len() && (#[trigger] s.matches[k]).char_start >= pos
                ==> s.matches[s.match_idx->0 as int].char_start <= s.matches[k].char_start
        &&& t2.open[i] == (TabView {
            cursor: columns::index_cursor(
                text,
                s.matches[s.match_idx->0 as int].char_start as int,
            ),
            ..tabs.open[i]
        })
        &&& tabs::others_kept(tabs, t2, i)
    } else {
        s.match_idx is None && s.failed && t2 == tabs
    }
}

proof fn lemma_researched(s: IsearchView, tabs: TabsView, e: EditsView, i: int)
    requires
        buffers::active_loaded(tabs, e) == Some(i),
        e.buffers[tabs.open[i].path].text.len() <= usize::MAX,
    ensures
        ({
            let (s2, t2) = researched(s, tabs, e);
            let text = e.buffers[tabs.open[i].path].text;
            &&& s2.query == s.query
            &&& s2.origin_cursor == s.origin_cursor
            &&& s2.origin_scroll == s.origin_scroll
            &&& s2.last_query == s.last_query
            &&& s2.matches == all_matches(text, s.query.text())
            &&& looked_ahead(s2, tabs, t2, i, text)
        }),
{
    let text = e.buffers[tabs.open[i].path].text;
    let found = all_matches(text, s.query.text());
    let pos = columns::cursor_index(text, tabs.open[i].cursor);
    seqs::lemma_first_from(tabs.open, crate::tabs::by_id(tabs.active->0), 0);
    seqs::lemma_first_from(found, from_pos(pos), 0);
    matches_occur_in_order(text, folded(s.query.text()), 0);
    let k = seqs::first_from(found, from_pos(pos), 0);
    lemma_few(text, folded(s.query.text()), 0);
    if k < found.len() {
        assert(from_pos(pos)(found[k]));
        assert(found[k].char_start >= pos);
        assert forall|j: int|
            0 <= j < found.len() && (#[trigger] found[j]).char_start
                >= pos implies found[k].char_start <= found[j].char_start by {
            if j < k {
                assert(!from_pos(pos)(found[j]));
            } else if j > k {
                assert(found[k].char_end <= found[j].char_start);
            }
        }
    } else {
        assert forall|j: int| 0 <= j < found.len() implies (#[trigger] found[j]).char_start
            < pos by {
            assert(!from_pos(pos)(found[j]));
        }
    }
}

proof fn lemma_few(t: Seq<char>, q: Seq<char>, i: int)
    requires
        0 <= i,
    ensures
        i <= t.len() ==> occurrences(t, q, i).len() <= t.len() - i,
        i > t.len() ==> occurrences(t, q, i).len() == 0,
    decreases t.len() - i,
{
    if q.len() == 0 || i + q.len() > t.len() {
    } else if occurs(t, q, i) {
        lemma_few(t, q, i + q.len());
    } else {
        lemma_few(t, q, i + 1);
    }
}

/// Typing into a search adds the character to the query and looks ahead
/// from the cursor.
pub proof fn typing_looks_ahead(
    st: IsearchView,
    tabs: TabsView,
    e: EditsView,
    j: JumpsView,
    c: char,
    i: int,
)
    requires
        buffers::active_loaded(tabs, e) == Some(i),
        e.buffers[tabs.open[i].path].text.len() <= usize::MAX,
    ensures
        ({
            let (s2, t2, j2, used) = overlay(Command::InsertChar(c), Some(st), tabs, e, j);
            let text = e.buffers[tabs.open[i].path].text;
            &&& used
            &&& j2 == j
            &&& s2 is Some
            &&& (s2->0).query.text() == st.query.before + seq![c] + st.query.after
            &&& (s2->0).origin_cursor == st.origin_cursor
            &&& (s2->0).origin_scroll == st.origin_scroll
            &&& (s2->0).matches == all_matches(text, (s2->0).query.text())
            &&& looked_ahead(s2->0, tabs, t2, i, text)
        }),
{
    let s1 = IsearchView { query: input::typed(st.query, c), ..st };
    lemma_researched(s1, tabs, e, i);
    assert(s1.query.text() =~= st.query.before + seq![c] + st.query.after);
}

/// Deleting from the query looks ahead anew, or goes back to where the
/// search started once the query is empty.
pub proof fn deleting_looks_ahead_or_returns(
    st: IsearchView,
    tabs: TabsView,
    e: EditsView,
    j: JumpsView,
    i: int,
)
    requires
        buffers::active_loaded(tabs, e) == Some(i),
        e.buffers[tabs.open[i].path].text.len() <= usize::MAX,
        st.query.before.len() > 0,
    ensures
        ({
            let (s2, t2, j2, used) = overlay(Command::DeleteBack, Some(st), tabs, e, j);
            let text = e.buffers[tabs.open[i].path].text;
            &&& used
            &&& j2 == j
            &&& s2 is Some
            &&& (s2->0).query.text() == st.query.before.drop_last() + st.query.after
            &&& (s2->0).origin_cursor == st.origin_cursor
            &&& (s2->0).origin_scroll == st.origin_scroll
            &&& (s2->0).query.text().len() > 0 ==> (s2->0).matches == all_matches(
                text,
                (s2->0).query.text(),
            ) && looked_ahead(s2->0, tabs, t2, i, text)
            &&& (s2->0).query.text().len() == 0 ==> {
                &&& (s2->0).matches.len() == 0
                &&& !(s2->0).failed
                &&& t2.open[i] == (TabView {
                    cursor: st.origin_cursor,
                    scroll: st.origin_scroll,
                    ..tabs.open[i]
                })
                &&& tabs::others_kept(tabs, t2, i)
            }
        }),
{
    let s1 = IsearchView { query: input::backspaced(st.query), ..st };
    seqs::lemma_first_from(tabs.open, crate::tabs::by_id(tabs.active->0), 0);
    lemma_researched(s1, tabs, e, i);
    assert(s1.query.text() =~= st.query.before.drop_last() + st.query.after);
}

/// The search key goes from each match to the next; behind the last one it
/// fails once, and then starts from the first. With an empty query it looks
/// for the last one again.
pub proof fn the_search_key_goes_round(
    st: IsearchView,
    tabs: TabsView,
    e: EditsView,
    j: JumpsView,
    i: int,
)
    requires
        buffers::active_loaded(tabs, e) == Some(i),
        e.buffers[tabs.open[i].path].text.len() <= usize::MAX,
        forall|k: int|
            0 <= k < st.matches.len() ==> (#[trigger] st.matches[k]).char_start
                <= e.buffers[tabs.open[i].path].text.len(),
        st.match_idx matches Some(k) ==> k < st.matches.len(),
    ensures
        ({
            let (s2, t2, j2, used) = overlay(Command::InBufferSearch, Some(st), tabs, e, j);
            let text = e.buffers[tabs.open[i].path].text;
            let n = st.matches.len() as int;
            let some = st.query.text().len() > 0;
            &&& used
            &&& j2 == j
            &&& s2 is Some
            &&& some && !st.failed && st.match_idx is Some && st.match_idx->0 + 1 < n ==> {
                &&& (s2->0).match_idx == Some((st.match_idx->0 + 1) as usize)
                &&& !(s2->0).failed
                &&& t2.open[i].cursor == columns::index_cursor(
                    text,
                    st.matches[st.match_idx->0 + 1].char_start as int,
                )
            }
            &&& some && !st.failed && st.match_idx is Some && st.match_idx->0 + 1 == n ==> {
                &&& (s2->0).failed
                &&& (s2->0).match_idx == st.match_idx
                &&& t2 == tabs
            }
            &&& some && st.failed && n > 0 ==> {
                &&& (s2->0).match_idx == Some(0usize)
                &&& !(s2->0).failed
                &&& t2.open[i].cursor == columns::index_cursor(
                    text,
                    st.matches[0].char_start as int,
                )
            }
            &&& some ==> (s2->0).query == st.query
            &&& some && st.match_idx is Some ==> (s2->0).matches == st.matches
            &&& !some && st.last_query is Some ==> (s2->0).query.text() == st.last_query->0
                && looked_ahead(s2->0, tabs, t2, i, text)
            &&& !some && st.last_query is None ==> s2 == Some(st) && t2 == tabs
        }),
{
    seqs::lemma_first_from(tabs.open, crate::tabs::by_id(tabs.active->0), 0);
    if st.query.text().len() == 0 {
        if let Some(q) = st.last_query {
            let s1 = IsearchView { query: input::input_of(q), ..st };
            assert(s1.query.text() =~= q);
            lemma_researched(s1, tabs, e, i);
        }
    } else if !st.failed && st.match_idx is None {
        lemma_researched(st, tabs, e, i);
    }
}

/// Accepting a search ends it with the cursor where it is; what was looked
/// for is remembered, and if the cursor moved, the place where the search
/// started can be jumped back to.
pub proof fn accepting_keeps_the_cursor(st: IsearchView, tabs: TabsView, e: EditsView, j: JumpsView, i: int)
    requires
        tabs.active_index() == Some(i),
        st.query.text().len() > 0,
    ensures
        ({
            let (s2, t2, j2, used) = overlay(Command::InsertNewline, Some(st), tabs, e, j);
            let t = tabs.open[i];
            &&& used
            &&& s2 is None
            &&& t2.open[i] == (TabView { last_search: Some(st.query.text()), ..t })
            &&& tabs::others_kept(tabs, t2, i)
            &&& t.cursor.line == st.origin_cursor.line && t.cursor.col == st.origin_cursor.col
                ==> j2 == j
            &&& t.cursor.line != st.origin_cursor.line || t.cursor.col != st.origin_cursor.col
                ==> j2 == jumps::recorded(
                j,
                JumpView {
                    path: t.path,
                    line: st.origin_cursor.line,
                    col: st.origin_cursor.col,
                    scroll: st.origin_scroll,
                },
            )
        }),
{
    seqs::lemma_first_from(tabs.open, crate::tabs::by_id(tabs.active->0), 0);
}

/// The search key starts a search with an empty query that remembers where
/// it started and what was searched for last in that tab; one that is under
/// way goes on.
pub proof fn a_search_starts_where_one_is(s: IsearchView, tabs: TabsView, e: EditsView, i: int)
    requires
        buffers::active_loaded(tabs, e) == Some(i),
    ensures
        ({
            let n = searching(None, tabs, e);
            let t = tabs.open[i];
            &&& n is Some
            &&& n->0.query.before.len() == 0
            &&& n->0.query.after.len() == 0
            &&& n->0.origin_cursor == t.cursor
            &&& n->0.origin_scroll == t.scroll
            &&& n->0.last_query == t.last_search
            &&& n->0.matches.len() == 0
            &&& !n->0.failed
            &&& searching(Some(s), tabs, e) == Some(s)
        }),
{
}

/// A search that is given up returns cursor and view to where it started,
/// and what was searched for is remembered.
pub proof fn giving_up_returns(s: IsearchView, tabs: TabsView, i: int)
    requires
        tabs.active_index() == Some(i),
    ensures
        ({
            let t2 = given_up(Some(s), tabs);
            &&& crate::tabs::others_kept(tabs, t2, i)
            &&& t2.open[i].cursor == s.origin_cursor
            &&& t2.open[i].scroll == s.origin_scroll
            &&& s.query.before.len() + s.query.after.len() > 0 ==> t2.open[i].last_search == Some(
                s.query.before + s.query.after,
            )
            &&& s.query.before.len() + s.query.after.len() == 0 && s.last_query is Some
                ==> t2.open[i].last_search == s.last_query
        }),
{
    seqs::lemma_first_from(tabs.open, crate::tabs::by_id(tabs.active->0), 0);
}

} // verus!
