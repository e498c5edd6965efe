//! Undo and redo in the active tab.

use vstd::prelude::*;

use crate::buffers;
use crate::buffers::{put_active, take_active, BufferEdits, EditsView};
use crate::edit;
use crate::edits;
use crate::edits::{apply_group, bump, invert_group, BufferView, EditedBuffer};
use crate::tabs::{TabView, Tabs, TabsView};
use crate::text;
use crate::text::rope_clone;
use crate::truth;

verus! {

/// A buffer with its newest group of edits taken back.
pub open spec fn buffer_undone(b: BufferView) -> BufferView {
    let f = edits::finalised(b.history);
    match edits::last_real(f.past, f.past.len() as int) {
        None => BufferView { history: f, ..b },
        Some(i) => BufferView {
            history: edits::undone(f, i),
            ..edits::retexted(b, edits::ops_inverted(b.text, f.past[i].ops, 0))
        },
    }
}

/// The group that an undo would take back.
pub open spec fn undo_group(b: BufferView) -> Option<edits::GroupView> {
    let f = edits::finalised(b.history);
    match edits::last_real(f.past, f.past.len() as int) {
        None => None,
        Some(i) => Some(f.past[i]),
    }
}

/// The group that a redo would apply again.
pub open spec fn redo_group(b: BufferView) -> Option<edits::GroupView> {
    let f = edits::finalised(b.history);
    match edits::last_real(f.future, f.future.len() as int) {
        None => None,
        Some(i) => Some(f.future[i]),
    }
}

/// A buffer with the group that was undone last applied again.
pub open spec fn buffer_redone(b: BufferView) -> BufferView {
    let f = edits::finalised(b.history);
    match edits::last_real(f.future, f.future.len() as int) {
        None => BufferView { history: f, ..b },
        Some(i) => BufferView {
            history: edits::redone(f, i),
            ..edits::retexted(
                b,
                edits::ops_applied(b.text, f.future[i].ops, f.future[i].ops.len() as int),
            )
        },
    }
}

/// Takes back the newest group of edits.
pub fn undo_buffer(eb: &mut EditedBuffer) -> (r: Option<usize>)
    ensures
        final(eb)@ == buffer_undone(old(eb)@),
        r is Some <==> undo_group(old(eb)@) is Some,
        r is Some ==> r->0 < final(eb).history.future.len() && final(eb).history.future[r->0 as int]@
            == undo_group(old(eb)@)->0,
        truth::truthful(old(eb)@) ==> truth::truthful(final(eb)@),
{
    let ghost f = edits::finalised(eb@.history);
    proof {
        edits::lemma_last_real(f.past, f.past.len() as int);
        if truth::truthful(eb@) {
            truth::undo_keeps_truth(eb@);
        }
    }
    match eb.history.take_undo() {
        None => None,
        Some(k) => {
            assert(eb.history@.future[k as int] == eb.history.future[k as int]@);
            let mut rope = rope_clone(&eb.rope);
            invert_group(&mut rope, &eb.history.future[k]);
            bump(eb, rope);
            Some(k)
        },
    }
}

/// Applies the group that was undone last again.
pub fn redo_buffer(eb: &mut EditedBuffer) -> (r: Option<usize>)
    ensures
        final(eb)@ == buffer_redone(old(eb)@),
        r is Some <==> redo_group(old(eb)@) is Some,
        r is Some ==> r->0 < final(eb).history.past.len() && final(eb).history.past[r->0 as int]@
            == redo_group(old(eb)@)->0,
        truth::truthful(old(eb)@) ==> truth::truthful(final(eb)@),
{
    let ghost f = edits::finalised(eb@.history);
    proof {
        edits::lemma_last_real(f.future, f.future.len() as int);
        if truth::truthful(eb@) {
            truth::redo_keeps_truth(eb@);
        }
    }
    match eb.history.take_redo() {
        None => None,
        Some(k) => {
            assert(eb.history@.past[k as int] == eb.history.past[k as int]@);
            let mut rope = rope_clone(&eb.rope);
            apply_group(&mut rope, &eb.history.past[k]);
            bump(eb, rope);
            Some(k)
        },
    }
}

pub open spec fn undoing() -> buffers::Change {
    |t: TabView, b: BufferView, c: u64|
        (
            match undo_group(b) {
                Some(g) => edit::at_cursor(t, g.cursor_before),
                None => t,
            },
            buffer_undone(b),
            c,
        )
}

pub open spec fn redoing() -> buffers::Change {
    |t: TabView, b: BufferView, c: u64|
        (
            match redo_group(b) {
                Some(g) => edit::at_cursor(t, g.cursor_after),
                None => t,
            },
            buffer_redone(b),
            c,
        )
}

/// Undoes the newest group of edits in the active tab, and puts the cursor
/// back where it was before them.
pub fn undo_active(tabs: &mut Tabs, edits: &mut BufferEdits)
    ensures
        (final(tabs)@, final(edits)@) == buffers::with_active(
            old(tabs)@,
            old(edits)@,
            undoing(),
        ),
        truth::all_truthful(old(edits)@) ==> truth::all_truthful(final(edits)@),
{
    let ghost e0 = edits@;
    match take_active(tabs, edits) {
        None => {},
        Some((i, tab, eb)) => {
            let mut tab = tab;
            let mut eb = eb;
            let path = tab.path.text.clone();
            let clock: u64 = edits.clock;
            if let Some(k) = undo_buffer(&mut eb) {
                tab.cursor = eb.history.future[k].cursor_before;
            }
            put_active(tabs, edits, i, path, tab, eb, clock);
            proof {
                buffers::lemma_take_put(e0, path@, eb@, clock);
                truth::lemma_kept(e0, path@, eb@, clock);
            }
        },
    }
}

/// Redoes the group that was undone last in the active tab, and puts the
/// cursor where it was after it.
pub fn redo_active(tabs: &mut Tabs, edits: &mut BufferEdits)
    ensures
        (final(tabs)@, final(edits)@) == buffers::with_active(
            old(tabs)@,
            old(edits)@,
            redoing(),
        ),
        truth::all_truthful(old(edits)@) ==> truth::all_truthful(final(edits)@),
{
    let ghost e0 = edits@;
    match take_active(tabs, edits) {
        None => {},
        Some((i, tab, eb)) => {
            let mut tab = tab;
            let mut eb = eb;
            let path = tab.path.text.clone();
            let clock: u64 = edits.clock;
            if let Some(k) = redo_buffer(&mut eb) {
                tab.cursor = eb.history.past[k].cursor_after;
            }
            put_active(tabs, edits, i, path, tab, eb, clock);
            proof {
                buffers::lemma_take_put(e0, path@, eb@, clock);
                truth::lemma_kept(e0, path@, eb@, clock);
            }
        },
    }
}

// ---------------------------------------------------------------------
// Laws
// ---------------------------------------------------------------------

/// An edit that was recorded with the operations it truly made is undone
/// to the text before it, and redone to the text after it.
pub proof fn undo_takes_back_a_recorded_edit(
    b: BufferView,
    seq: u64,
    ops: Seq<edits::OpView>,
    before: crate::columns::Cursor,
    after: crate::columns::Cursor,
)
    requires
        ops.len() > 0,
        edits::ops_true(b.text, ops),
    ensures
        ({
            let e = BufferView {
                history: edits::recorded(b.history, seq, ops, before, after, None),
                ..edits::retexted(b, edits::ops_applied(b.text, ops, ops.len() as int))
            };
            let u = buffer_undone(e);
            &&& u.text == b.text
            &&& undo_group(e) is Some
            &&& undo_group(e)->0.cursor_before == before
            &&& buffer_redone(u).text == e.text
            &&& buffer_redone(u).history == e.history
        }),
{
    let e = BufferView {
        history: edits::recorded(b.history, seq, ops, before, after, None),
        ..edits::retexted(b, edits::ops_applied(b.text, ops, ops.len() as int))
    };
    let h = e.history;
    let n = h.past.len() as int;
    assert(edits::finalised(h) == h);
    assert(h.past[n - 1].ops == ops);
    assert(edits::last_real(h.past, n) == Some(n - 1));
    edits::inverting_ops_undoes_them(b.text, ops, 0);
    let u = buffer_undone(e);
    assert(u.history.future =~= seq![h.past[n - 1]]);
    assert(edits::last_real(u.history.future, 1) == Some(0int));
    edits::redo_reverses_undo(h, n - 1);
}

/// An undo puts text and cursor of the active tab back to where they were
/// before the last edit, and a redo brings both back; other tabs and buffers
/// are left alone.
pub proof fn undo_and_redo_go_back_and_forth(
    t: TabsView,
    e: EditsView,
    i: int,
    b: BufferView,
    seq: u64,
    ops: Seq<edits::OpView>,
    before: crate::columns::Cursor,
    after: crate::columns::Cursor,
)
    requires
        buffers::active_loaded(t, e) == Some(i),
        ops.len() > 0,
        edits::ops_true(b.text, ops),
        e.buffers[t.open[i].path] == (BufferView {
            history: edits::recorded(b.history, seq, ops, before, after, None),
            ..edits::retexted(b, edits::ops_applied(b.text, ops, ops.len() as int))
        }),
    ensures
        ({
            let path = t.open[i].path;
            let (t2, e2) = buffers::with_active(t, e, undoing());
            let (t3, e3) = buffers::with_active(t2, e2, redoing());
            &&& e2.buffers[path].text == b.text
            &&& t2.open[i].cursor == before
            &&& buffers::only_there(t, e, t2, e2, i)
            &&& e3.buffers[path].text == e.buffers[path].text
            &&& t3.open[i].cursor == after
            &&& buffers::only_there(t2, e2, t3, e3, i)
        }),
{
    buffers::a_change_is_made_in_the_active_tab(t, e, undoing());
    let (t2, e2) = buffers::with_active(t, e, undoing());
    undo_takes_back_a_recorded_edit(b, seq, ops, before, after);
    let path = t.open[i].path;
    let b1 = e.buffers[path];
    let h = b1.history;
    let n = h.past.len() as int;
    assert(edits::finalised(h) == h);
    assert(edits::last_real(h.past, n) == Some(n - 1));
    let u = buffer_undone(b1);
    assert(u.history.future =~= seq![h.past[n - 1]]);
    assert(edits::last_real(u.history.future, 1) == Some(0int));
    crate::seqs::lemma_first_from(t.open, crate::tabs::by_id(t.active->0), 0);
    assert(crate::tabs::by_id(t.active->0)(t.open[i]));
    assert forall|k: int| 0 <= k < i implies !crate::tabs::by_id(t2.active->0)(
        #[trigger] t2.open[k],
    ) by {
        assert(!crate::tabs::by_id(t.active->0)(t.open[k]));
    }
    crate::seqs::lemma_first_is(t2.open, crate::tabs::by_id(t2.active->0), 0, i);
    assert(buffers::active_loaded(t2, e2) == Some(i));
    buffers::a_change_is_made_in_the_active_tab(t2, e2, redoing());
}

/// Without an edit to take back an undo changes no text and moves no
/// cursor, and neither does a redo when nothing was undone.
pub proof fn without_edits_nothing_is_undone(t: TabView, b: BufferView, c: u64)
    ensures
        b.history.past.len() == 0 && b.history.open is None ==> undoing()(t, b, c) == (t, b, c),
        b.history.future.len() == 0 && b.history.open is None ==> redoing()(t, b, c) == (t, b, c),
{
}

/// What was typed in one go is undone in one go: an open run of typing goes
/// away whole, and the cursor stands again where the run was started.
pub proof fn a_run_of_typing_is_undone_at_once(b: BufferView, g: edits::GroupView, from: int, run: Seq<char>)
    requires
        b.history.open == Some(g),
        g.ops == seq![edits::OpView::Insert { at: from, text: run }],
        0 <= from,
        from + run.len() <= b.text.len(),
        b.text.subrange(from, from + run.len()) == run,
    ensures
        buffer_undone(b).text == b.text.subrange(0, from) + b.text.subrange(
            from + run.len(),
            b.text.len() as int,
        ),
        undo_group(b) is Some,
        undo_group(b)->0.cursor_before == g.cursor_before,
{
    let f = edits::finalised(b.history);
    let n = f.past.len() as int;
    assert(f.past[n - 1] == g);
    assert(g.ops.len() == 1);
    assert(edits::last_real(f.past, n) == Some(n - 1));
    let before = b.text.subrange(0, from) + b.text.subrange(
        from + run.len(),
        b.text.len() as int,
    );
    reveal_with_fuel(edits::ops_inverted, 3);
    assert(edits::op_inverted_within(b.text, g.ops[0]) =~= before);
}

/// A mark that a save leaves in the history is no edit: an undo goes past
/// it to the edit before.
pub proof fn a_save_is_not_undone(b: BufferView, seq: u64, hash: u64)
    ensures
        ({
            let m = BufferView { history: edits::save_marked(b.history, seq, hash), ..b };
            &&& buffer_undone(m).text == buffer_undone(b).text
            &&& undo_group(m) == undo_group(b)
            &&& edits::save_point(m.history.past, hash, m.history.past.len() as int) == Some(
                m.history.past.len() - 1,
            )
        }),
{
    let f = edits::finalised(b.history);
    let h = edits::save_marked(b.history, seq, hash);
    let n = f.past.len() as int;
    assert(edits::finalised(h) == h);
    assert(h.past.subrange(0, n) =~= f.past);
    lemma_marked(f.past, h.past, n);
    edits::lemma_last_real(f.past, n);
    assert(edits::last_real(h.past, n + 1) == edits::last_real(f.past, n));
}

proof fn lemma_marked(past: Seq<edits::GroupView>, more: Seq<edits::GroupView>, n: int)
    requires
        0 <= n <= past.len() < more.len(),
        more.subrange(0, past.len() as int) == past,
    ensures
        edits::last_real(more, n) == edits::last_real(past, n),
        forall|i: int| 0 <= i < past.len() ==> more[i] == past[i],
    decreases n,
{
    assert forall|i: int| 0 <= i < past.len() implies more[i] == past[i] by {
        assert(more.subrange(0, past.len() as int)[i] == more[i]);
    }
    if n > 0 {
        lemma_marked(past, more, n - 1);
    }
}

} // verus!
