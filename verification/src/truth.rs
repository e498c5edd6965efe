//! Histories that tell the truth: what they say was done is what was done,
//! so that undo and redo lead through the texts that there were.

use vstd::prelude::*;

use crate::buffers::EditsView;
use crate::columns::Cursor;
use crate::edits;
use crate::edits::{BufferView, FileSearchMark, GroupView, HistoryView, OpView};
use crate::replace_one;
use crate::session;
use crate::text;
use crate::undo;

verus! {

/// The first `n` groups truly apply, one after the other, from a text on.
pub open spec fn groups_true(t: Seq<char>, q: Seq<GroupView>, n: int) -> bool
    decreases n,
{
    if n <= 0 || n > q.len() {
        true
    } else {
        groups_true(t, q, n - 1) && edits::ops_true(
            session::groups_applied(t, q, n - 1),
            q[n - 1].ops,
        )
    }
}

/// A history tells how a text came from a first text, and what was undone
/// since.
pub open spec fn told_from(h: HistoryView, t: Seq<char>, first: Seq<char>) -> bool {
    let f = edits::finalised(h);
    &&& groups_true(first, f.past, f.past.len() as int)
    &&& session::groups_applied(first, f.past, f.past.len() as int) == t
    &&& groups_true(t, f.future.reverse(), f.future.len() as int)
}

/// A history is true of a text.
pub open spec fn tells(h: HistoryView, t: Seq<char>) -> bool {
    exists|first: Seq<char>| told_from(h, t, first)
}

/// The history of a buffer is true of its text.
pub open spec fn truthful(b: BufferView) -> bool {
    tells(b.history, b.text)
}

/// The histories of all buffers are true.
pub open spec fn all_truthful(e: EditsView) -> bool {
    forall|p: Seq<char>| #[trigger] e.has(p) ==> truthful(e.buffers[p])
}

/// The history of a fresh buffer is true.
pub proof fn fresh_histories_are_true(t: Seq<char>)
    ensures
        truthful(edits::fresh_buffer(t)),
{
    let h = edits::fresh_buffer(t).history;
    assert(told_from(h, t, t));
}

/// Putting a buffer with a true history in place keeps all histories true.
pub proof fn lemma_put(e: EditsView, path: Seq<char>, b: BufferView, clock: u64)
    requires
        all_truthful(e),
        truthful(b),
    ensures
        all_truthful(e.with_buffer(path, b, clock)),
{
    let e2 = e.with_buffer(path, b, clock);
    assert forall|p: Seq<char>| #[trigger] e2.has(p) implies truthful(e2.buffers[p]) by {
        if p != path {
            assert(e.has(p));
        }
    }
}

/// Changing one buffer keeps all histories true if it keeps that of the
/// buffer true.
pub proof fn lemma_kept(e: EditsView, path: Seq<char>, b: BufferView, clock: u64)
    requires
        e.has(path),
        truthful(e.buffers[path]) ==> truthful(b),
    ensures
        all_truthful(e) ==> all_truthful(e.with_buffer(path, b, clock)),
{
    if all_truthful(e) {
        assert(e.has(path));
        lemma_put(e, path, b, clock);
    }
}

/// Whether histories are true depends on the buffers alone.
pub proof fn lemma_same_buffers(a: EditsView, b: EditsView)
    requires
        a.buffers == b.buffers,
    ensures
        all_truthful(a) == all_truthful(b),
{
    if all_truthful(a) {
        assert forall|p: Seq<char>| #[trigger] b.has(p) implies truthful(b.buffers[p]) by {
            assert(a.has(p));
        }
    }
    if all_truthful(b) {
        assert forall|p: Seq<char>| #[trigger] a.has(p) implies truthful(a.buffers[p]) by {
            assert(b.has(p));
        }
    }
}

/// With fewer buffers there are fewer histories to be true.
pub proof fn lemma_fewer(a: EditsView, b: EditsView)
    requires
        forall|p: Seq<char>| #[trigger] b.has(p) ==> a.has(p) && b.buffers[p] == a.buffers[p],
    ensures
        all_truthful(a) ==> all_truthful(b),
{
}

/// Finishing the open groups keeps all histories true.
pub proof fn lemma_finished(a: EditsView, b: EditsView)
    requires
        forall|p: Seq<char>| #[trigger]
            b.has(p) ==> a.has(p) && b.buffers[p].text == a.buffers[p].text
                && b.buffers[p].history == edits::finalised(a.buffers[p].history),
    ensures
        all_truthful(a) ==> all_truthful(b),
{
    if all_truthful(a) {
        assert forall|p: Seq<char>| #[trigger] b.has(p) implies truthful(b.buffers[p]) by {
            let h = a.buffers[p].history;
            let t = a.buffers[p].text;
            lemma_finalised(h);
            let first = choose|first: Seq<char>| told_from(h, t, first);
            assert(told_from(edits::finalised(h), t, first));
        }
    }
}

// ---------------------------------------------------------------------
// Runs of groups
// ---------------------------------------------------------------------

/// The first groups do not depend on what follows them.
proof fn lemma_prefix(t: Seq<char>, a: Seq<GroupView>, b: Seq<GroupView>, k: int)
    requires
        0 <= k <= a.len(),
    ensures
        session::groups_applied(t, a + b, k) == session::groups_applied(t, a, k),
        groups_true(t, a + b, k) == groups_true(t, a, k),
    decreases k,
{
    if k > 0 {
        lemma_prefix(t, a, b, k - 1);
        assert((a + b)[k - 1] == a[k - 1]);
    }
}

/// One run of groups and then another is both.
proof fn lemma_concat(t: Seq<char>, a: Seq<GroupView>, b: Seq<GroupView>, k: int)
    requires
        0 <= k <= b.len(),
    ensures
        session::groups_applied(t, a + b, a.len() + k) == session::groups_applied(
            session::groups_applied(t, a, a.len() as int),
            b,
            k,
        ),
        groups_true(t, a + b, a.len() + k) == (groups_true(t, a, a.len() as int) && groups_true(
            session::groups_applied(t, a, a.len() as int),
            b,
            k,
        )),
    decreases k,
{
    if k > 0 {
        lemma_concat(t, a, b, k - 1);
        assert((a + b)[a.len() + k - 1] == b[k - 1]);
    } else {
        lemma_prefix(t, a, b, a.len() as int);
    }
}

proof fn lemma_push(t: Seq<char>, q: Seq<GroupView>, g: GroupView)
    ensures
        session::groups_applied(t, q.push(g), q.len() as int + 1) == edits::ops_applied(
            session::groups_applied(t, q, q.len() as int),
            g.ops,
            g.ops.len() as int,
        ),
        groups_true(t, q.push(g), q.len() as int + 1) == (groups_true(t, q, q.len() as int)
            && edits::ops_true(session::groups_applied(t, q, q.len() as int), g.ops)),
{
    assert(q.push(g) =~= q + seq![g]);
    lemma_prefix(t, q, seq![g], q.len() as int);
    assert(q.push(g)[q.len() as int] == g);
}

/// Groups without operations change nothing.
proof fn lemma_empty_groups(t: Seq<char>, q: Seq<GroupView>, a: int, b: int)
    requires
        0 <= a <= b <= q.len(),
        forall|i: int| a <= i < b ==> (#[trigger] q[i]).ops.len() == 0,
    ensures
        session::groups_applied(t, q, b) == session::groups_applied(t, q, a),
    decreases b - a,
{
    if a < b {
        lemma_empty_groups(t, q, a, b - 1);
        assert(q[b - 1].ops.len() == 0);
    }
}

/// Behind the newest group that holds operations there are none.
proof fn lemma_behind_last_real(q: Seq<GroupView>, n: int)
    requires
        0 <= n <= q.len(),
    ensures
        ({
            let from = match edits::last_real(q, n) {
                Some(i) => i + 1,
                None => 0,
            };
            &&& 0 <= from <= n
            &&& forall|j: int| from <= j < n ==> (#[trigger] q[j]).ops.len() == 0
        }),
    decreases n,
{
    if n > 0 && q[n - 1].ops.len() == 0 {
        lemma_behind_last_real(q, n - 1);
    }
}

// ---------------------------------------------------------------------
// What keeps histories true
// ---------------------------------------------------------------------

proof fn lemma_finalised(h: HistoryView)
    ensures
        edits::finalised(edits::finalised(h)) == edits::finalised(h),
        edits::finalised(h).open is None,
        edits::finalised(h).future == h.future,
{
}

/// Recording the operations that an edit truly made keeps a history true.
pub proof fn recording_keeps_truth(
    h: HistoryView,
    t: Seq<char>,
    seq: u64,
    ops: Seq<OpView>,
    before: Cursor,
    after: Cursor,
    mark: Option<FileSearchMark>,
)
    requires
        tells(h, t),
        edits::ops_true(t, ops),
    ensures
        tells(
            edits::recorded(h, seq, ops, before, after, mark),
            edits::ops_applied(t, ops, ops.len() as int),
        ),
{
    let first = choose|first: Seq<char>| told_from(h, t, first);
    let f = edits::finalised(h);
    let r = edits::recorded(h, seq, ops, before, after, mark);
    lemma_push(first, f.past, r.past.last());
    assert(edits::finalised(r) == r);
    assert(r.past == f.past.push(r.past.last()));
    let t2 = edits::ops_applied(t, ops, ops.len() as int);
    assert(r.future.reverse() =~= Seq::<GroupView>::empty());
    assert(told_from(r, t2, first));
}

/// A single insertion that is recorded keeps a history true.
pub proof fn lemma_insertion(
    h: HistoryView,
    t: Seq<char>,
    seq: u64,
    at: int,
    put: Seq<char>,
    before: Cursor,
    after: Cursor,
)
    requires
        tells(h, t),
        0 <= at <= t.len(),
    ensures
        tells(
            edits::recorded(h, seq, seq![OpView::Insert { at, text: put }], before, after, None),
            text::inserted(t, at, put),
        ),
{
    let op = OpView::Insert { at, text: put };
    edits::lemma_one_op(t, op);
    recording_keeps_truth(h, t, seq, seq![op], before, after, None);
}

/// A history without anything in it.
pub open spec fn blank(h: HistoryView) -> bool {
    h.past.len() == 0 && h.open is None && h.future.len() == 0
}

/// A history that says nothing is true of every text.
pub proof fn blank_histories_are_true(h: HistoryView, t: Seq<char>)
    requires
        blank(h),
    ensures
        tells(h, t),
{
    assert(h.future.reverse() =~= Seq::<GroupView>::empty());
    assert(told_from(h, t, t));
}

/// Groups that truly apply to a text, put behind a true history, keep it
/// true, if nothing is left to redo.
pub proof fn appending_keeps_truth(h: HistoryView, t: Seq<char>, q: Seq<GroupView>)
    requires
        tells(h, t),
        groups_true(t, q, q.len() as int),
    ensures
        tells(
            HistoryView { past: edits::finalised(h).past + q, open: None, future: seq![] },
            session::groups_applied(t, q, q.len() as int),
        ),
{
    let first = choose|first: Seq<char>| told_from(h, t, first);
    let past = edits::finalised(h).past;
    let h2 = HistoryView { past: past + q, open: None, future: seq![] };
    lemma_concat(first, past, q, q.len() as int);
    assert(h2.future.reverse() =~= Seq::<GroupView>::empty());
    assert(told_from(h2, session::groups_applied(t, q, q.len() as int), first));
}

/// A single deletion that is recorded keeps a history true.
pub proof fn lemma_deletion(
    h: HistoryView,
    t: Seq<char>,
    seq: u64,
    from: int,
    to: int,
    before: Cursor,
    after: Cursor,
)
    requires
        tells(h, t),
        0 <= from <= to <= t.len(),
    ensures
        tells(
            edits::recorded(
                h,
                seq,
                seq![OpView::Delete { at: from, text: t.subrange(from, to) }],
                before,
                after,
                None,
            ),
            text::removed(t, from, to),
        ),
{
    let op = OpView::Delete { at: from, text: t.subrange(from, to) };
    edits::lemma_one_op(t, op);
    recording_keeps_truth(h, t, seq, seq![op], before, after, None);
}

/// The operations that replace a piece of text truly apply.
pub proof fn lemma_replace_ops(t: Seq<char>, at: int, len: int, put: Seq<char>)
    requires
        0 <= at,
        0 <= len,
        at + len <= t.len(),
    ensures
        ({
            let ops = edits::replace_ops(at, t.subrange(at, at + len), put);
            &&& edits::ops_true(t, ops)
            &&& edits::ops_applied(t, ops, ops.len() as int) == replace_one::spliced(t, at, len, put)
        }),
{
    let gone = t.subrange(at, at + len);
    let mid = text::removed(t, at, at + len);
    let del = OpView::Delete { at, text: gone };
    let ins = OpView::Insert { at, text: put };
    let ops = edits::replace_ops(at, gone, put);
    let whole = replace_one::spliced(t, at, len, put);
    edits::lemma_one_op(t, del);
    edits::lemma_one_op(mid, ins);
    if gone.len() > 0 && put.len() > 0 {
        assert(ops =~= seq![del] + seq![ins]);
        edits::lemma_ops_true_concat(t, seq![del], seq![ins]);
        edits::lemma_ops_concat(t, seq![del], seq![ins], 1);
    } else if gone.len() > 0 {
        assert(ops =~= seq![del]);
        assert(whole =~= mid);
    } else if put.len() > 0 {
        assert(ops =~= seq![ins]);
        assert(mid =~= t);
    } else {
        assert(ops =~= Seq::<OpView>::empty());
        assert(whole =~= t);
    }
}

/// A replacement that is recorded keeps a history true.
pub proof fn lemma_replacement(
    h: HistoryView,
    t: Seq<char>,
    seq: u64,
    at: int,
    len: int,
    put: Seq<char>,
    before: Cursor,
    after: Cursor,
    mark: Option<FileSearchMark>,
)
    requires
        tells(h, t),
        0 <= at,
        0 <= len,
        at + len <= t.len(),
    ensures
        tells(
            edits::recorded(
                h,
                seq,
                edits::replace_ops(at, t.subrange(at, at + len), put),
                before,
                after,
                mark,
            ),
            replace_one::spliced(t, at, len, put),
        ),
{
    lemma_replace_ops(t, at, len, put);
    recording_keeps_truth(
        h,
        t,
        seq,
        edits::replace_ops(at, t.subrange(at, at + len), put),
        before,
        after,
        mark,
    );
}

/// Typing keeps a history true, whether it goes on with a word or starts
/// one.
pub proof fn typing_keeps_truth(
    h: HistoryView,
    t: Seq<char>,
    seq: u64,
    at: int,
    ch: char,
    before: Cursor,
    after: Cursor,
)
    requires
        tells(h, t),
        0 <= at <= t.len(),
    ensures
        tells(edits::typed(h, seq, at, ch, before, after), text::inserted(t, at, seq![ch])),
{
    let first = choose|first: Seq<char>| told_from(h, t, first);
    let f = edits::finalised(h);
    let r = edits::typed(h, seq, at, ch, before, after);
    let t2 = text::inserted(t, at, seq![ch]);
    let fr = edits::finalised(r);
    assert(fr.future.reverse() =~= Seq::<GroupView>::empty());
    if h.open is Some && edits::continues(h.open->0, at, ch) {
        let g = h.open->0;
        let g2 = r.open->0;
        let from = g.ops[0]->Insert_at;
        let put = g.ops[0]->Insert_text;
        let base = session::groups_applied(first, h.past, h.past.len() as int);
        lemma_push(first, h.past, g);
        lemma_push(first, h.past, g2);
        assert(g.ops =~= seq![OpView::Insert { at: from, text: put }]);
        assert(edits::op_true(edits::ops_applied(base, g.ops, 0), g.ops[0]));
        edits::lemma_one_op(base, g.ops[0]);
        edits::lemma_one_op(base, g2.ops[0]);
        assert(t == text::inserted(base, from, put));
        assert(text::inserted(base, from, put.push(ch)) =~= t2);
        assert(told_from(r, t2, first));
    } else {
        let g = r.open->0;
        lemma_push(first, f.past, g);
        edits::lemma_one_op(t, g.ops[0]);
        assert(told_from(r, t2, first));
    }
}

/// Undo keeps a history true.
pub proof fn undo_keeps_truth(b: BufferView)
    requires
        truthful(b),
    ensures
        truthful(undo::buffer_undone(b)),
{
    let first = choose|first: Seq<char>| told_from(b.history, b.text, first);
    lemma_undo(b, first);
}

proof fn lemma_undo(b: BufferView, first: Seq<char>)
    requires
        told_from(b.history, b.text, first),
    ensures
        told_from(undo::buffer_undone(b).history, undo::buffer_undone(b).text, first),
{
    let f = edits::finalised(b.history);
    let n = f.past.len() as int;
    lemma_finalised(b.history);
    lemma_behind_last_real(f.past, n);
    edits::lemma_last_real(f.past, n);
    if let Some(i) = edits::last_real(f.past, n) {
        let g = f.past[i];
        let a = f.past.subrange(0, i);
        let z = f.past.subrange(i, n);
        let old_text = session::groups_applied(first, f.past, i);
        assert(f.past =~= a + z);
        lemma_prefix(first, a, z, i);
        lemma_concat(first, a, z, n - i);
        lemma_empty_groups(first, f.past, i + 1, n);
        assert(session::groups_applied(first, f.past, i + 1) == b.text);
        lemma_true_below(first, f.past, n, i + 1);
        assert(edits::ops_true(old_text, g.ops));
        edits::inverting_ops_undoes_them(old_text, g.ops, 0);
        let u = undo::buffer_undone(b);
        assert(u.text == old_text);
        assert(edits::finalised(u.history) == u.history);
        let r = f.future.reverse();
        assert(u.history.future.reverse() =~= z + r);
        lemma_concat(old_text, z, r, r.len() as int);
        assert(groups_true(old_text, z + r, z.len() + r.len() as int));
        assert(told_from(u.history, u.text, first));
    } else {
        assert(told_from(f, b.text, first));
    }
}

proof fn lemma_true_below(t: Seq<char>, q: Seq<GroupView>, n: int, k: int)
    requires
        0 <= k <= n <= q.len(),
        groups_true(t, q, n),
    ensures
        groups_true(t, q, k),
    decreases n - k,
{
    if k < n {
        lemma_true_below(t, q, n - 1, k);
    }
}

/// Redo keeps a history true.
pub proof fn redo_keeps_truth(b: BufferView)
    requires
        truthful(b),
    ensures
        truthful(undo::buffer_redone(b)),
{
    let first = choose|first: Seq<char>| told_from(b.history, b.text, first);
    let f = edits::finalised(b.history);
    let n = f.future.len() as int;
    lemma_finalised(b.history);
    lemma_behind_last_real(f.future, n);
    edits::lemma_last_real(f.future, n);
    if let Some(i) = edits::last_real(f.future, n) {
        let g = f.future[i];
        let r = f.future.reverse();
        let k = n - i;
        let a = r.subrange(0, k);
        let z = r.subrange(k, n);
        let d = undo::buffer_redone(b);
        assert(r =~= a + z);
        assert(f.future.subrange(i, n).reverse() =~= a);
        assert(f.future.subrange(0, i).reverse() =~= z);
        lemma_prefix(b.text, a, z, k);
        lemma_concat(b.text, a, z, n - k);
        assert forall|j: int| 0 <= j < k - 1 implies (#[trigger] r[j]).ops.len() == 0 by {
            assert(r[j] == f.future[n - 1 - j]);
        }
        lemma_empty_groups(b.text, r, 0, k - 1);
        assert(r[k - 1] == g);
        assert(session::groups_applied(b.text, r, k) == d.text);
        lemma_concat(first, f.past, a, k);
        assert(d.history.past =~= f.past + a);
        assert(edits::finalised(d.history) == d.history);
        assert(told_from(d.history, d.text, first));
    } else {
        assert(told_from(f, b.text, first));
        assert(tells(f, b.text));
    }
}

// ---------------------------------------------------------------------
// What true histories are good for
// ---------------------------------------------------------------------

/// A buffer after `n` undos.
pub open spec fn undone_times(b: BufferView, n: nat) -> BufferView
    decreases n,
{
    if n == 0 {
        b
    } else {
        undo::buffer_undone(undone_times(b, (n - 1) as nat))
    }
}

/// With a true history, enough undos lead back to the first text.
pub proof fn undoing_all_leads_to_the_first_text(b: BufferView, first: Seq<char>)
    requires
        told_from(b.history, b.text, first),
    ensures
        undone_times(b, edits::finalised(b.history).past.len() + 1).text == first,
{
    let n = edits::finalised(b.history).past.len() + 1;
    lemma_undone_times(b, first, n);
}

proof fn lemma_undone_times(b: BufferView, first: Seq<char>, n: nat)
    requires
        told_from(b.history, b.text, first),
    ensures
        ({
            let u = undone_times(b, n);
            let past = edits::finalised(u.history).past;
            &&& told_from(u.history, u.text, first)
            &&& edits::last_real(past, past.len() as int) is None || past.len() + n
                <= edits::finalised(b.history).past.len()
            &&& n > edits::finalised(b.history).past.len() ==> u.text == first
        }),
    decreases n,
{
    let u = undone_times(b, n);
    if n > 0 {
        let v = undone_times(b, (n - 1) as nat);
        lemma_undone_times(b, first, (n - 1) as nat);
        lemma_undo(v, first);
        let f = edits::finalised(v.history);
        lemma_finalised(v.history);
        edits::lemma_last_real(f.past, f.past.len() as int);
    }
    let past = edits::finalised(u.history).past;
    if n > edits::finalised(b.history).past.len() {
        lemma_behind_last_real(past, past.len() as int);
        lemma_empty_groups(first, past, 0, past.len() as int);
    }
}

/// With a true history, a redo right after an undo gives back the text.
pub proof fn redo_takes_back_an_undo(b: BufferView)
    requires
        truthful(b),
        undo::undo_group(b) is Some,
    ensures
        undo::buffer_redone(undo::buffer_undone(b)).text == b.text,
{
    let first = choose|first: Seq<char>| told_from(b.history, b.text, first);
    let f = edits::finalised(b.history);
    let n = f.past.len() as int;
    lemma_undo(b, first);
    lemma_finalised(b.history);
    lemma_behind_last_real(f.past, n);
    edits::lemma_last_real(f.past, n);
    let u = undo::buffer_undone(b);
    if let Some(i) = edits::last_real(f.past, n) {
        let g = f.past[i];
        let old_text = session::groups_applied(first, f.past, i);
        lemma_true_below(first, f.past, n, i + 1);
        lemma_empty_groups(first, f.past, i + 1, n);
        edits::inverting_ops_undoes_them(old_text, g.ops, 0);
        let z = f.past.subrange(i, n).reverse();
        assert(u.history.future == f.future + z);
        let m = u.history.future.len() as int;
        assert(u.history.future[m - 1] == z[n - i - 1]);
        assert(z[n - i - 1] == g);
        assert(edits::last_real(u.history.future, m) == Some(m - 1));
    }
}

} // verus!
