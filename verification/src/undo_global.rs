//! Undo and redo across all buffers while the file search is open.

use vstd::prelude::*;

use crate::buffers;
use crate::buffers::{BufferEdits, EditsView, PendingSingleReplace, SingleReplaceView};
use crate::edit;
use crate::edits;
use crate::edits::{BufferView, EditGroup, EditOp, FileSearchMark, GroupView, OpView};
use crate::hits;
use crate::hits::{
    capped_add, make_entry, tree_row_index_for_hit, tree_visible, FileSearchSelection,
    FileSearchState, HitView, SearchView,
};
use crate::listing;
use crate::listing::sorted_keys;
use crate::replace_one;
use crate::replace_one::settle;
use crate::tabs::{Tabs, TabsView};
use crate::undo;
use crate::undo::{redo_buffer, undo_buffer};
use crate::truth;

verus! {

// ---------------------------------------------------------------------
// The newest edit of all
// ---------------------------------------------------------------------

/// The group that the next undo or redo of a buffer is about.
pub open spec fn next_group(b: BufferView, redo: bool) -> Option<GroupView> {
    if redo {
        undo::redo_group(b)
    } else {
        undo::undo_group(b)
    }
}

/// The age of that group, if it is newer than `floor`.
pub open spec fn age(b: BufferView, redo: bool, floor: u64) -> Option<u64> {
    match next_group(b, redo) {
        Some(g) => if g.seq > floor {
            Some(g.seq)
        } else {
            None
        },
        None => None,
    }
}

/// Of the first `n` buffers of `q` the one whose next group is the newest.
/// Of groups of one age the first counts.
pub open spec fn newest(
    e: EditsView,
    redo: bool,
    floor: u64,
    q: Seq<Seq<char>>,
    n: int,
) -> Option<int>
    decreases n,
{
    if n <= 0 {
        None
    } else {
        let best = newest(e, redo, floor, q, n - 1);
        match age(e.buffers[q[n - 1]], redo, floor) {
            None => best,
            Some(a) => match best {
                Some(k) => if age(e.buffers[q[k]], redo, floor)->0 < a {
                    Some(n - 1)
                } else {
                    best
                },
                None => Some(n - 1),
            },
        }
    }
}

/// The newest group is at least as new as any other.
pub proof fn newest_is_newest(
    e: EditsView,
    redo: bool,
    floor: u64,
    q: Seq<Seq<char>>,
    n: int,
)
    requires
        0 <= n <= q.len(),
    ensures
        match newest(e, redo, floor, q, n) {
            Some(k) => {
                &&& 0 <= k < n
                &&& age(e.buffers[q[k]], redo, floor) is Some
                &&& forall|j: int|
                    0 <= j < n && age(e.buffers[#[trigger] q[j]], redo, floor) is Some ==> age(
                        e.buffers[q[j]],
                        redo,
                        floor,
                    )->0 <= age(e.buffers[q[k]], redo, floor)->0
            },
            None => forall|j: int|
                0 <= j < n ==> age(e.buffers[#[trigger] q[j]], redo, floor) is None,
        },
    decreases n,
{
    if n > 0 {
        newest_is_newest(e, redo, floor, q, n - 1);
    }
}

fn group_age(g: &EditGroup, floor: u64) -> (r: Option<u64>)
    ensures
        r == (if g@.seq > floor {
            Some(g@.seq)
        } else {
            None
        }),
{
    if g.seq > floor {
        Some(g.seq)
    } else {
        None
    }
}

/// The last group with operations, as `edits::last_real` has it.
fn last_group(groups: &Vec<EditGroup>) -> (r: Option<usize>)
    ensures
        match r {
            Some(i) => edits::last_real(edits::group_views(groups@), groups.len() as int) == Some(
                i as int,
            ) && i < groups.len(),
            None => edits::last_real(edits::group_views(groups@), groups.len() as int) is None,
        },
{
    let ghost v = edits::group_views(groups@);
    let mut i: usize = groups.len();
    while i > 0
        invariant
            i <= groups.len(),
            v == edits::group_views(groups@),
            edits::last_real(v, groups.len() as int) == edits::last_real(v, i as int),
        decreases i,
    {
        assert(v[i - 1] == groups[i - 1]@);
        if groups[i - 1].ops.len() > 0 {
            return Some(i - 1);
        }
        i = i - 1;
    }
    None
}

fn buffer_age(eb: &edits::EditedBuffer, redo: bool, floor: u64) -> (r: Option<u64>)
    ensures
        r == age(eb@, redo, floor),
{
    let ghost f = edits::finalised(eb@.history);
    if redo {
        let r = last_group(&eb.history.future);
        match r {
            Some(i) => {
                assert(eb@.history.future[i as int] == eb.history.future[i as int]@);
                group_age(&eb.history.future[i], floor)
            },
            None => None,
        }
    } else {
        match &eb.history.open {
            Some(g) => {
                if g.ops.len() > 0 {
                    assert(f.past.last() == g@);
                    return group_age(g, floor);
                }
                proof {
                    assert(f.past.drop_last() =~= eb@.history.past);
                    lemma_last_real_push(eb@.history.past, g@);
                }
            },
            None => {},
        }
        match last_group(&eb.history.past) {
            Some(i) => {
                assert(eb@.history.past[i as int] == eb.history.past[i as int]@);
                group_age(&eb.history.past[i], floor)
            },
            None => None,
        }
    }
}

proof fn lemma_last_real_push(past: Seq<GroupView>, g: GroupView)
    requires
        g.ops.len() == 0,
    ensures
        edits::last_real(past.push(g), past.len() as int + 1) == edits::last_real(
            past,
            past.len() as int,
        ),
        edits::last_real(past, past.len() as int) matches Some(i) ==> past.push(g)[i] == past[i],
{
    lemma_last_real_prefix(past, g, past.len() as int);
    edits::lemma_last_real(past, past.len() as int);
}

proof fn lemma_last_real_prefix(past: Seq<GroupView>, g: GroupView, n: int)
    requires
        0 <= n <= past.len(),
    ensures
        edits::last_real(past.push(g), n) == edits::last_real(past, n),
    decreases n,
{
    if n > 0 {
        lemma_last_real_prefix(past, g, n - 1);
    }
}

fn find_newest(edits: &BufferEdits, loaded: &Vec<String>, redo: bool, floor: u64) -> (r: Option<usize>)
    requires
        forall|i: int| 0 <= i < loaded.len() ==> edits@.has(#[trigger] loaded[i]@),
    ensures
        ({
            let q = buffers::string_views(loaded@);
            match r {
                Some(k) => newest(edits@, redo, floor, q, q.len() as int) == Some(k as int) && k
                    < loaded.len(),
                None => newest(edits@, redo, floor, q, q.len() as int) is None,
            }
        }),
{
    let ghost q = buffers::string_views(loaded@);
    let mut best: Option<usize> = None;
    let mut best_age: u64 = 0;
    let mut i: usize = 0;
    while i < loaded.len()
        invariant
            i <= loaded.len(),
            q == buffers::string_views(loaded@),
            forall|i: int| 0 <= i < loaded.len() ==> edits@.has(#[trigger] loaded[i]@),
            match best {
                Some(k) => newest(edits@, redo, floor, q, i as int) == Some(k as int) && k < i
                    && age(edits@.buffers[q[k as int]], redo, floor) == Some(best_age),
                None => newest(edits@, redo, floor, q, i as int) is None,
            },
        decreases loaded.len() - i,
    {
        assert(q[i as int] == loaded[i as int]@);
        assert(edits@.has(loaded[i as int]@));
        match edits.get(loaded[i].as_str()) {
            Some(eb) => {
                if let Some(a) = buffer_age(eb, redo, floor) {
                    let better: bool = match best {
                        Some(_) => best_age < a,
                        None => true,
                    };
                    if better {
                        best = Some(i);
                        best_age = a;
                    }
                }
            },
            None => {},
        }
        i = i + 1;
    }
    best
}

// ---------------------------------------------------------------------
// The hit that an edit belongs to
// ---------------------------------------------------------------------

/// The first text that the operations take out.
pub open spec fn taken_out(ops: Seq<OpView>, i: int) -> Seq<char>
    decreases ops.len() - i,
{
    if i < 0 || i >= ops.len() {
        seq![]
    } else {
        match ops[i] {
            OpView::Delete { at, text } => text,
            OpView::Insert { at, text } => taken_out(ops, i + 1),
        }
    }
}

/// The first text that the operations put in.
pub open spec fn put_in(ops: Seq<OpView>, i: int) -> Seq<char>
    decreases ops.len() - i,
{
    if i < 0 || i >= ops.len() {
        seq![]
    } else {
        match ops[i] {
            OpView::Insert { at, text } => text,
            OpView::Delete { at, text } => put_in(ops, i + 1),
        }
    }
}

/// Where the operations start.
pub open spec fn place(ops: Seq<OpView>) -> int {
    if ops.len() == 0 {
        0
    } else {
        match ops[0] {
            OpView::Insert { at, .. } => at,
            OpView::Delete { at, .. } => at,
        }
    }
}

fn op_text(ops: &Vec<EditOp>, put: bool) -> (s: String)
    ensures
        s@ == (if put {
            put_in(edits::op_views(ops@), 0)
        } else {
            taken_out(edits::op_views(ops@), 0)
        }),
{
    let ghost v = edits::op_views(ops@);
    let mut i: usize = 0;
    while i < ops.len()
        invariant
            i <= ops.len(),
            v == edits::op_views(ops@),
            put ==> put_in(v, 0) == put_in(v, i as int),
            !put ==> taken_out(v, 0) == taken_out(v, i as int),
        decreases ops.len() - i,
    {
        assert(v[i as int] == ops[i as int]@);
        match &ops[i] {
            EditOp::Insert { at, text } => {
                if put {
                    return text.clone();
                }
            },
            EditOp::Delete { at, text } => {
                if !put {
                    return text.clone();
                }
            },
        }
        i = i + 1;
    }
    let s = String::new();
    assert(s@ =~= seq![]);
    s
}

fn op_place(ops: &Vec<EditOp>) -> (r: usize)
    ensures
        r == place(edits::op_views(ops@)),
{
    if ops.len() == 0 {
        return 0;
    }
    assert(edits::op_views(ops@)[0] == ops[0]@);
    match &ops[0] {
        EditOp::Insert { at, .. } => *at,
        EditOp::Delete { at, .. } => *at,
    }
}

/// After the group was undone or redone the hit stands replaced.
pub open spec fn now_replaced(m: FileSearchMark, redo: bool) -> bool {
    m.forward_marks_replaced == redo
}

/// The text that stands in the buffer now at the place of the group.
pub open spec fn standing(g: GroupView, redo: bool) -> Seq<char> {
    if redo {
        put_in(g.ops, 0)
    } else {
        taken_out(g.ops, 0)
    }
}

/// The text that was there before.
pub open spec fn gone(g: GroupView, redo: bool) -> Seq<char> {
    if redo {
        taken_out(g.ops, 0)
    } else {
        put_in(g.ops, 0)
    }
}

/// The list scrolled so that the row of hit `i` shows, a third down, if it
/// was not in view.
pub open spec fn revealed(s: SearchView, i: int, side_rows: int) -> usize {
    let visible = hits::tree_rows_visible(s, side_rows);
    let row = hits::tree_row(s.results, i);
    if visible == 0 || s.scroll_offset <= row < s.scroll_offset + visible {
        s.scroll_offset
    } else if row < visible / 3 {
        0
    } else {
        (row - visible / 3) as usize
    }
}

/// The search after a group with a mark was undone or redone.
pub open spec fn synced(s: SearchView, g: GroupView, redo: bool, side_rows: int) -> SearchView {
    match g.file_search_mark {
        None => s,
        Some(m) => {
            let i = m.hit_idx as int;
            if i >= s.flat_hits.len() || i >= s.hit_replacements.len() {
                s
            } else {
                let en = if now_replaced(m, redo) {
                    Some(hits::entry_of(s.flat_hits[i], standing(g, redo), place(g.ops)))
                } else {
                    None
                };
                SearchView {
                    hit_replacements: s.hit_replacements.update(i, en),
                    selection: FileSearchSelection::Result(m.hit_idx),
                    scroll_offset: revealed(s, i, side_rows),
                    ..s
                }
            }
        },
    }
}

fn sync_marks(state: &mut FileSearchState, g: &EditGroup, redo: bool, side_rows: usize)
    ensures
        final(state)@ == synced(old(state)@, g@, redo, side_rows as int),
{
    let m = match g.file_search_mark {
        Some(m) => m,
        None => {
            return;
        },
    };
    let i: usize = m.hit_idx;
    if i >= state.flat_hits.len() || i >= state.hit_replacements.len() {
        return;
    }
    let ghost s0 = state@;
    assert(s0.flat_hits[i as int] == state.flat_hits[i as int]@);
    let visible: usize = tree_visible(state, side_rows);
    let row: usize = tree_row_index_for_hit(&state.results, i);
    let off: usize = state.scroll_offset;
    if visible > 0 && !(row >= off && row - off < visible) {
        let third: usize = visible / 3;
        state.scroll_offset = if row < third {
            0
        } else {
            row - third
        };
    }
    let en = if m.forward_marks_replaced == redo {
        Some(make_entry(&state.flat_hits[i], op_text(&g.ops, redo), op_place(&g.ops)))
    } else {
        None
    };
    state.hit_replacements.set(i, en);
    state.selection = FileSearchSelection::Result(i);
    assert(state@ =~= synced(s0, g@, redo, side_rows as int));
}

// ---------------------------------------------------------------------
// Undoing
// ---------------------------------------------------------------------

/// The tab of a file with its cursor put where the group has it.
pub open spec fn cursor_restored(t: TabsView, path: Seq<char>, g: GroupView, redo: bool) -> TabsView {
    match t.find_path(path) {
        Some(i) => t.with_tab(
            i,
            edit::at_cursor(
                t.open[i],
                if redo {
                    g.cursor_after
                } else {
                    g.cursor_before
                },
            ),
        ),
        None => t,
    }
}

pub open spec fn buffer_stepped(b: BufferView, redo: bool) -> BufferView {
    if redo {
        undo::buffer_redone(b)
    } else {
        undo::buffer_undone(b)
    }
}

/// The request that writes to disk what now stands at the place of a hit.
pub open spec fn disk_request(hit: HitView, g: GroupView, redo: bool) -> SingleReplaceView {
    SingleReplaceView {
        path: hit.path,
        line: hit.line as int,
        match_start: hit.match_start as int,
        match_end: hits::capped(
            hit.match_start as int,
            vstd::utf8::encode_utf8(gone(g, redo)).len() as usize as int,
        ),
        original: gone(g, redo),
        replacement: standing(g, redo),
    }
}

/// The edits after a group was undone or redone. An edit that went to disk
/// goes there again, and its buffer stays clean.
pub open spec fn edits_stepped(
    e: EditsView,
    s: Option<SearchView>,
    path: Seq<char>,
    g: GroupView,
    redo: bool,
) -> EditsView {
    let b = buffer_stepped(e.buffers[path], redo);
    match (g.file_search_mark, s) {
        (Some(m), Some(st)) => if m.disk_write && m.hit_idx < st.flat_hits.len() {
            replace_one::pushed(
                e.with_buffer(path, replace_one::settled(b), e.clock),
                disk_request(st.flat_hits[m.hit_idx as int], g, redo),
            )
        } else {
            e.with_buffer(path, b, e.clock)
        },
        _ => e.with_buffer(path, b, e.clock),
    }
}

/// What an undo, or a redo, across all buffers does.
pub open spec fn stepped(
    t: TabsView,
    e: EditsView,
    s: Option<SearchView>,
    floor: u64,
    side_rows: int,
    redo: bool,
) -> (TabsView, EditsView, Option<SearchView>) {
    let q = listing::listing(e.buffers.dom());
    match newest(e, redo, floor, q, q.len() as int) {
        None => (t, e, s),
        Some(k) => {
            let path = q[k];
            let g = next_group(e.buffers[path], redo)->0;
            (
                cursor_restored(t, path, g, redo),
                edits_stepped(e, s, path, g, redo),
                match s {
                    Some(st) => Some(synced(st, g, redo, side_rows)),
                    None => None,
                },
            )
        },
    }
}

fn disk_command(
    state: &FileSearchState,
    i: usize,
    g: &EditGroup,
    redo: bool,
) -> (p: PendingSingleReplace)
    requires
        i < state@.flat_hits.len(),
    ensures
        p@ == disk_request(state@.flat_hits[i as int], g@, redo),
{
    let hit = &state.flat_hits[i];
    assert(state@.flat_hits[i as int] == hit@);
    let original = op_text(&g.ops, !redo);
    let end: usize = capped_add(hit.match_start, original.as_str().len());
    PendingSingleReplace {
        path: hit.path.copy(),
        line: hit.line,
        match_start: hit.match_start,
        match_end: end,
        original,
        replacement: op_text(&g.ops, redo),
    }
}

fn step_global(
    tabs: &mut Tabs,
    edits: &mut BufferEdits,
    search: &mut Option<FileSearchState>,
    floor: u64,
    side_rows: usize,
    redo: bool,
)
    ensures
        (final(tabs)@, final(edits)@, hits::opt_view(*final(search))) == stepped(
            old(tabs)@,
            old(edits)@,
            hits::opt_view(*old(search)),
            floor,
            side_rows as int,
            redo,
        ),
        truth::all_truthful(old(edits)@) ==> truth::all_truthful(final(edits)@),
{
    let ghost e0 = edits@;
    let ghost t0 = tabs@;
    let loaded = sorted_keys(&edits.buffers);
    let ghost q = buffers::string_views(loaded@);
    assert(edits.buffers.map().dom() =~= e0.buffers.dom());
    assert forall|i: int| 0 <= i < loaded.len() implies e0.has(#[trigger] loaded[i]@) by {
        assert(q[i] == loaded[i]@);
        assert(q.contains(q[i]));
    }
    let k: usize = match find_newest(edits, &loaded, redo, floor) {
        Some(k) => k,
        None => {
            return;
        },
    };
    let path = loaded[k].clone();
    assert(q[k as int] == path@);
    assert(e0.has(loaded[k as int]@));
    proof {
        newest_is_newest(e0, redo, floor, q, q.len() as int);
    }
    let taken = edits.take(path.as_str());
    let mut eb = match taken {
        Some(eb) => eb,
        None => {
            return;
        },
    };
    let ghost b0 = eb@;
    let ghost g0 = next_group(b0, redo)->0;
    let done = if redo {
        redo_buffer(&mut eb)
    } else {
        undo_buffer(&mut eb)
    };
    let g: EditGroup = match done {
        Some(j) => if redo {
            eb.history.past[j].copy()
        } else {
            eb.history.future[j].copy()
        },
        None => {
            assert(false);
            return;
        },
    };
    assert(g@ == g0);
    let mut to_disk: Option<usize> = None;
    if let Some(m) = g.file_search_mark {
        if let Some(state) = search {
            if m.disk_write && m.hit_idx < state.flat_hits.len() {
                to_disk = Some(m.hit_idx);
            }
        }
    }
    if to_disk.is_some() {
        settle(&mut eb);
    }
    let ghost b = eb@;
    edits.put(path.clone(), eb);
    proof {
        buffers::lemma_take_put(e0, path@, b, e0.clock);
        truth::lemma_kept(e0, path@, b, e0.clock);
    }
    let ghost e1 = edits@;
    if let Some(i) = to_disk {
        if let Some(state) = search {
            edits.push_single(disk_command(state, i, &g, redo));
        }
    }
    proof {
        truth::lemma_same_buffers(e1, edits@);
    }
    if let Some(i) = tabs.find_path(path.as_str()) {
        let mut tab = tabs.at(i).copy();
        tab.cursor = if redo {
            g.cursor_after
        } else {
            g.cursor_before
        };
        tabs.set(i, tab);
    }
    if let Some(mut state) = search.take() {
        sync_marks(&mut state, &g, redo, side_rows);
        *search = Some(state);
    }
}

/// Undoes the newest group of all buffers, if it is newer than `floor`, and
/// keeps the list of hits in step with it.
pub fn undo_global(
    tabs: &mut Tabs,
    edits: &mut BufferEdits,
    search: &mut Option<FileSearchState>,
    floor: u64,
    side_rows: usize,
)
    ensures
        (final(tabs)@, final(edits)@, hits::opt_view(*final(search))) == stepped(
            old(tabs)@,
            old(edits)@,
            hits::opt_view(*old(search)),
            floor,
            side_rows as int,
            false,
        ),
        truth::all_truthful(old(edits)@) ==> truth::all_truthful(final(edits)@),
{
    step_global(tabs, edits, search, floor, side_rows, false)
}

/// Redoes the newest group that was undone in any buffer.
pub fn redo_global(
    tabs: &mut Tabs,
    edits: &mut BufferEdits,
    search: &mut Option<FileSearchState>,
    floor: u64,
    side_rows: usize,
)
    ensures
        (final(tabs)@, final(edits)@, hits::opt_view(*final(search))) == stepped(
            old(tabs)@,
            old(edits)@,
            hits::opt_view(*old(search)),
            floor,
            side_rows as int,
            true,
        ),
        truth::all_truthful(old(edits)@) ==> truth::all_truthful(final(edits)@),
{
    step_global(tabs, edits, search, floor, side_rows, true)
}

/// Edits that are no newer than the opening of the overlay stay.
pub proof fn older_edits_stay(
    t: TabsView,
    e: EditsView,
    s: Option<SearchView>,
    floor: u64,
    side_rows: int,
    redo: bool,
)
    requires
        forall|p: Seq<char>| #[trigger] e.has(p) ==> age(e.buffers[p], redo, floor) is None,
        e.buffers.dom().finite(),
    ensures
        stepped(t, e, s, floor, side_rows, redo) == (t, e, s),
{
    listing::finite_sets_have_a_listing(e.buffers.dom());
    let q = listing::listing(e.buffers.dom());
    newest_is_newest(e, redo, floor, q, q.len() as int);
    if let Some(k) = newest(e, redo, floor, q, q.len() as int) {
        assert(q.contains(q[k]));
        assert(e.has(q[k]));
    }
}

/// An undo while searching takes back the newest edit of all: its buffer is
/// the one stepped, its file's cursor moves, and every other buffer stays.
pub proof fn the_newest_edit_is_stepped(
    t: TabsView,
    e: EditsView,
    s: Option<SearchView>,
    floor: u64,
    side_rows: int,
    redo: bool,
    p: Seq<char>,
)
    requires
        e.buffers.dom().finite(),
        e.has(p),
        next_group(e.buffers[p], redo) is Some,
        next_group(e.buffers[p], redo)->0.seq > floor,
        forall|x: Seq<char>|
            #[trigger] e.has(x) && x != p && next_group(e.buffers[x], redo) is Some
                ==> next_group(e.buffers[x], redo)->0.seq < next_group(e.buffers[p], redo)->0.seq,
    ensures
        ({
            let (t2, e2, s2) = stepped(t, e, s, floor, side_rows, redo);
            let g = next_group(e.buffers[p], redo)->0;
            &&& e2.buffers[p].text == if redo {
                undo::buffer_redone(e.buffers[p]).text
            } else {
                undo::buffer_undone(e.buffers[p]).text
            }
            &&& forall|x: Seq<char>|
                x != p ==> #[trigger] e2.buffers[x] == e.buffers[x] && e2.has(x) == e.has(x)
            &&& t2.active == t.active
            &&& t2.open.len() == t.open.len()
            &&& t.find_path(p) is Some ==> t2.open[t.find_path(p)->0].cursor == if redo {
                g.cursor_after
            } else {
                g.cursor_before
            }
            &&& forall|k: int|
                0 <= k < t.open.len() && t.find_path(p) != Some(k) ==> #[trigger] t2.open[k]
                    == t.open[k]
            &&& g.file_search_mark is None ==> s2 == s && e2.pending_single_replace
                == e.pending_single_replace && e2.buffers[p].saved_version
                == e.buffers[p].saved_version
            &&& s is Some && g.file_search_mark is Some && g.file_search_mark->0.hit_idx
                < s->0.flat_hits.len() && g.file_search_mark->0.hit_idx
                < s->0.hit_replacements.len() ==> {
                let m = g.file_search_mark->0;
                let i = m.hit_idx as int;
                let r2 = s2->0.hit_replacements;
                &&& s2 is Some
                &&& r2.len() == s->0.hit_replacements.len()
                &&& r2[i] is Some <==> m.forward_marks_replaced == redo
                &&& forall|k: int|
                    0 <= k < r2.len() && k != i ==> #[trigger] r2[k] == s->0.hit_replacements[k]
                &&& s2->0.selection == FileSearchSelection::Result(m.hit_idx)
                &&& m.disk_write ==> e2.buffers[p].saved_version == e2.buffers[p].version
                    && e2.pending_single_replace.len() == e.pending_single_replace.len() + 1
                &&& !m.disk_write ==> e2.buffers[p].saved_version == e.buffers[p].saved_version
                    && e2.pending_single_replace == e.pending_single_replace
            }
        }),
{
    listing::finite_sets_have_a_listing(e.buffers.dom());
    let q = listing::listing(e.buffers.dom());
    newest_is_newest(e, redo, floor, q, q.len() as int);
    assert(q.contains(p));
    let j = choose|j: int| 0 <= j < q.len() && q[j] == p;
    assert(age(e.buffers[q[j]], redo, floor) is Some);
    let k = newest(e, redo, floor, q, q.len() as int)->0;
    assert(q.contains(q[k]));
    assert(e.has(q[k]));
    assert(q[k] == p);
    crate::seqs::lemma_first_from(t.open, crate::tabs::by_path(p), 0);
}

/// What goes to disk with an undone or redone replacement swaps the texts
/// of the edit: an undo writes what was taken out where the new text stands,
/// a redo the other way round.
pub proof fn stepping_a_written_hit_writes_again(hit: HitView, old_text: Seq<char>, new_text: Seq<char>, at: int, g: GroupView)
    requires
        old_text.len() > 0,
        new_text.len() > 0,
        g.ops == edits::replace_ops(at, old_text, new_text),
    ensures
        disk_request(hit, g, false).original == new_text,
        disk_request(hit, g, false).replacement == old_text,
        disk_request(hit, g, true).original == old_text,
        disk_request(hit, g, true).replacement == new_text,
        disk_request(hit, g, true).path == hit.path,
        disk_request(hit, g, true).line == hit.line,
        disk_request(hit, g, true).match_start == hit.match_start,
{
    reveal_with_fuel(taken_out, 3);
    reveal_with_fuel(put_in, 3);
}

/// The list shows the hit that was stepped: it stays as it is if the hit is
/// in view, and else shows it a third down, or as near to that as the start
/// of the list allows.
pub proof fn a_stepped_hit_is_brought_into_view(s: SearchView, g: GroupView, redo: bool, side_rows: int, m: FileSearchMark)
    requires
        g.file_search_mark == Some(m),
        m.hit_idx < s.flat_hits.len(),
        m.hit_idx < s.hit_replacements.len(),
        hits::tree_rows_visible(s, side_rows) > 0,
    ensures
        ({
            let top = synced(s, g, redo, side_rows).scroll_offset;
            let n = hits::tree_rows_visible(s, side_rows);
            let row = hits::tree_row(s.results, m.hit_idx as int);
            &&& top <= row < top + n
            &&& s.scroll_offset <= row < s.scroll_offset + n ==> top == s.scroll_offset
            &&& !(s.scroll_offset <= row < s.scroll_offset + n) ==> top == 0 || row - top == n / 3
        }),
{
    hits::lemma_tree_row(s.results, 0, m.hit_idx as int, 0, 0);
}

} // verus!
