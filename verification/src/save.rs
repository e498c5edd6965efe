//! Saving: the clean-up before a buffer is written and the requests to
//! write it.

use vstd::prelude::*;

use crate::buffers;
use crate::buffers::{put_active, take_active, BufferEdits, EditsView};
use crate::columns;
use crate::columns::{line_grapheme_len, Cursor};
use crate::edit;
use crate::edits;
use crate::edits::{bump, bump_u64, BufferView, EditOp, EditedBuffer, OpView};
use crate::tabs::{TabView, Tabs, TabsView};
use crate::text;
use crate::text::{
    rope_char, rope_clone, rope_insert, rope_len, rope_len_lines, rope_remove, rope_slice,
};
use crate::truth;
use crate::undo;

verus! {

// ---------------------------------------------------------------------
// Clean text
// ---------------------------------------------------------------------

/// A blank that is stripped at the end of a line.
pub open spec fn strippable(c: char) -> bool {
    c == ' ' || c == '\t'
}

/// A character before which blanks are stripped.
pub open spec fn ends_line(c: char) -> bool {
    c == '\n' || c == '\r'
}

/// Nothing but blanks lies between position `i` and the end of its line.
pub open spec fn only_blanks_left(t: Seq<char>, i: int) -> bool
    decreases t.len() - i,
{
    if i < 0 {
        false
    } else if i >= t.len() {
        true
    } else {
        ends_line(t[i]) || (strippable(t[i]) && only_blanks_left(t, i + 1))
    }
}

/// The character at `i` is a blank at the end of a line.
pub open spec fn trailing(t: Seq<char>, i: int) -> bool {
    0 <= i < t.len() && strippable(t[i]) && only_blanks_left(t, i + 1)
}

/// The text has characters and does not end in a newline.
pub open spec fn lacks_newline(t: Seq<char>) -> bool {
    t.len() > 0 && t[t.len() - 1] != '\n'
}

/// What is put behind the text.
pub open spec fn final_newline(t: Seq<char>) -> Seq<char> {
    if lacks_newline(t) {
        seq!['\n']
    } else {
        seq![]
    }
}

/// The clean form of the text from `i` on.
pub open spec fn clean_from(t: Seq<char>, i: int) -> Seq<char>
    decreases t.len() - i,
{
    if i < 0 || i >= t.len() {
        final_newline(t)
    } else if trailing(t, i) {
        clean_from(t, i + 1)
    } else {
        seq![t[i]] + clean_from(t, i + 1)
    }
}

/// The text without blanks at the ends of lines and, unless it is empty,
/// with a newline at the end.
pub open spec fn clean(t: Seq<char>) -> Seq<char> {
    clean_from(t, 0)
}

/// Where the run of trailing blanks that ends at `n` starts.
pub open spec fn run_start(t: Seq<char>, n: int) -> int
    decreases n,
{
    if n > 0 && trailing(t, n - 1) {
        run_start(t, n - 1)
    } else {
        n
    }
}

/// The deletions that strip the text before `n`, the last one first.
pub open spec fn strip_ops(t: Seq<char>, n: int) -> Seq<OpView>
    decreases n,
    when n <= t.len()
    via strip_ops_decreases
{
    if n <= 0 {
        seq![]
    } else if trailing(t, n - 1) {
        let p = run_start(t, n);
        seq![OpView::Delete { at: p, text: t.subrange(p, n) }] + strip_ops(t, p)
    } else {
        strip_ops(t, n - 1)
    }
}

#[via_fn]
proof fn strip_ops_decreases(t: Seq<char>, n: int) {
    if n > 0 {
        lemma_run_start(t, n);
    }
}

/// The operations that clean the text.
pub open spec fn clean_ops(t: Seq<char>) -> Seq<OpView> {
    let put = if lacks_newline(t) {
        seq![OpView::Insert { at: t.len() as int, text: seq!['\n'] }]
    } else {
        seq![]
    };
    put + strip_ops(t, t.len() as int)
}

pub proof fn lemma_run_start(t: Seq<char>, n: int)
    ensures
        run_start(t, n) <= n,
        0 <= n ==> 0 <= run_start(t, n),
        n > 0 && trailing(t, n - 1) ==> run_start(t, n) < n,
        forall|i: int| run_start(t, n) <= i < n ==> trailing(t, i),
        run_start(t, n) > 0 ==> !trailing(t, run_start(t, n) - 1),
    decreases n,
{
    if n > 0 && trailing(t, n - 1) {
        lemma_run_start(t, n - 1);
    }
}

proof fn lemma_clean_skip(t: Seq<char>, a: int, b: int)
    requires
        0 <= a <= b <= t.len(),
        forall|i: int| a <= i < b ==> trailing(t, i),
    ensures
        clean_from(t, a) == clean_from(t, b),
    decreases b - a,
{
    if a < b {
        lemma_clean_skip(t, a + 1, b);
    }
}

/// Putting a character in front moves the ends of lines by one.
proof fn lemma_left_shift(c: char, u: Seq<char>, i: int)
    requires
        0 <= i <= u.len(),
    ensures
        only_blanks_left(seq![c] + u, i + 1) == only_blanks_left(u, i),
    decreases u.len() - i,
{
    let v = seq![c] + u;
    if i < u.len() {
        lemma_left_shift(c, u, i + 1);
        assert(v[i + 1] == u[i]);
    }
}

proof fn lemma_clean_has_no_trailing(t: Seq<char>, i: int)
    requires
        0 <= i <= t.len(),
    ensures
        only_blanks_left(clean_from(t, i), 0) == only_blanks_left(t, i),
        forall|j: int| 0 <= j < clean_from(t, i).len() ==> !#[trigger] trailing(clean_from(t, i), j),
        t.len() > 0 ==> (i < t.len() || lacks_newline(t) ==> clean_from(t, i).len() > 0
            && clean_from(t, i).last() == '\n'),
    decreases t.len() - i,
{
    let u = clean_from(t, i);
    if i < t.len() {
        let w = clean_from(t, i + 1);
        lemma_clean_has_no_trailing(t, i + 1);
        if !trailing(t, i) {
            assert(u =~= seq![t[i]] + w);
            lemma_left_shift(t[i], w, 0);
            assert(u[0] == t[i]);
            assert forall|j: int| 0 <= j < u.len() implies !#[trigger] trailing(u, j) by {
                if j > 0 {
                    assert(u[j] == w[j - 1]);
                    lemma_left_shift(t[i], w, j);
                    assert(!trailing(w, j - 1));
                }
            }
            if i + 1 == t.len() && !lacks_newline(t) {
                assert(u =~= seq!['\n']);
            } else {
                assert(u.last() == w.last());
            }
        } else {
            if i + 1 == t.len() {
                assert(lacks_newline(t));
            }
        }
    } else {
        assert(u == final_newline(t));
        if lacks_newline(t) {
            assert(u[0] == '\n');
            assert(only_blanks_left(u, 0));
        }
    }
}

proof fn lemma_no_trailing_is_clean(t: Seq<char>, i: int)
    requires
        0 <= i <= t.len(),
        !lacks_newline(t),
        forall|j: int| i <= j < t.len() ==> !#[trigger] trailing(t, j),
    ensures
        clean_from(t, i) == t.subrange(i, t.len() as int),
    decreases t.len() - i,
{
    if i < t.len() {
        lemma_no_trailing_is_clean(t, i + 1);
        assert(!trailing(t, i));
        assert(clean_from(t, i) =~= t.subrange(i, t.len() as int));
    } else {
        assert(clean_from(t, i) =~= t.subrange(i, t.len() as int));
    }
}

proof fn lemma_no_trailing_no_ops(t: Seq<char>, n: int)
    requires
        0 <= n <= t.len(),
        forall|j: int| 0 <= j < t.len() ==> !#[trigger] trailing(t, j),
    ensures
        strip_ops(t, n) == Seq::<OpView>::empty(),
    decreases n,
{
    if n > 0 {
        assert(!trailing(t, n - 1));
        lemma_no_trailing_no_ops(t, n - 1);
    }
}

/// Cleaning a clean text changes nothing and takes no operation.
pub proof fn cleaning_is_idempotent(t: Seq<char>)
    ensures
        clean(clean(t)) == clean(t),
        clean_ops(clean(t)) == Seq::<OpView>::empty(),
{
    let u = clean(t);
    lemma_clean_has_no_trailing(t, 0);
    assert(t.len() == 0 ==> u.len() == 0);
    lemma_no_trailing_is_clean(u, 0);
    assert(u.subrange(0, u.len() as int) =~= u);
    lemma_no_trailing_no_ops(u, u.len() as int);
    assert(clean_ops(u) =~= Seq::<OpView>::empty());
}

/// The text up to `n`, stripped.
pub open spec fn stripped_upto(t: Seq<char>, n: int) -> Seq<char>
    decreases n,
{
    if n <= 0 || n > t.len() {
        seq![]
    } else if trailing(t, n - 1) {
        stripped_upto(t, n - 1)
    } else {
        stripped_upto(t, n - 1).push(t[n - 1])
    }
}

proof fn lemma_stripped_skip(t: Seq<char>, p: int, n: int)
    requires
        0 <= p <= n <= t.len(),
        forall|i: int| p <= i < n ==> trailing(t, i),
    ensures
        stripped_upto(t, n) == stripped_upto(t, p),
    decreases n - p,
{
    if p < n {
        lemma_stripped_skip(t, p, n - 1);
        assert(trailing(t, n - 1));
    }
}

proof fn lemma_stripped_split(t: Seq<char>, n: int)
    requires
        0 <= n <= t.len(),
    ensures
        stripped_upto(t, n) + clean_from(t, n) == clean(t),
    decreases n,
{
    if n > 0 {
        lemma_stripped_split(t, n - 1);
        if trailing(t, n - 1) {
        } else {
            assert(stripped_upto(t, n) + clean_from(t, n) =~= stripped_upto(t, n - 1) + clean_from(
                t,
                n - 1,
            ));
        }
    } else {
        assert(stripped_upto(t, 0) + clean_from(t, 0) =~= clean(t));
    }
}

/// The deletions strip the text before `n` and leave alone what follows.
proof fn lemma_strip_ops(t: Seq<char>, n: int, s: Seq<char>)
    requires
        0 <= n <= t.len(),
    ensures
        edits::ops_true(t.subrange(0, n) + s, strip_ops(t, n)),
        edits::ops_applied(
            t.subrange(0, n) + s,
            strip_ops(t, n),
            strip_ops(t, n).len() as int,
        ) == stripped_upto(t, n) + s,
    decreases n,
{
    let cur = t.subrange(0, n) + s;
    if n <= 0 {
        assert(cur =~= stripped_upto(t, n) + s);
    } else if trailing(t, n - 1) {
        let p = run_start(t, n);
        lemma_run_start(t, n);
        let op = OpView::Delete { at: p, text: t.subrange(p, n) };
        assert(cur.subrange(p, n) =~= t.subrange(p, n));
        edits::lemma_one_op(cur, op);
        let next = edits::op_applied(cur, op);
        assert(next =~= t.subrange(0, p) + s);
        lemma_strip_ops(t, p, s);
        lemma_stripped_skip(t, p, n);
        let a = seq![op];
        let b = strip_ops(t, p);
        edits::lemma_ops_true_concat(cur, a, b);
        edits::lemma_ops_concat(cur, a, b, b.len() as int);
    } else {
        lemma_strip_ops(t, n - 1, seq![t[n - 1]] + s);
        assert(t.subrange(0, n - 1) + (seq![t[n - 1]] + s) =~= cur);
        assert(stripped_upto(t, n - 1) + (seq![t[n - 1]] + s) =~= stripped_upto(t, n) + s);
    }
}

/// The clean-up operations truly apply, and make the text clean. So an
/// undo of the clean-up gives the old text back.
pub proof fn clean_ops_clean(t: Seq<char>)
    ensures
        edits::ops_true(t, clean_ops(t)),
        edits::ops_applied(t, clean_ops(t), clean_ops(t).len() as int) == clean(t),
{
    let n = t.len() as int;
    let b = strip_ops(t, n);
    lemma_strip_ops(t, n, final_newline(t));
    lemma_stripped_split(t, n);
    assert(t.subrange(0, n) =~= t);
    if lacks_newline(t) {
        let op = OpView::Insert { at: n, text: seq!['\n'] };
        edits::lemma_one_op(t, op);
        assert(edits::op_applied(t, op) =~= t + final_newline(t));
        let a = seq![op];
        edits::lemma_ops_true_concat(t, a, b);
        edits::lemma_ops_concat(t, a, b, b.len() as int);
    } else {
        assert(clean_ops(t) =~= b);
        assert(t + final_newline(t) =~= t);
    }
}

// ---------------------------------------------------------------------
// Clean-up of a buffer
// ---------------------------------------------------------------------

/// A cursor pulled back to the end of its line and of the text.
pub open spec fn pulled_in(t: Seq<char>, c: Cursor) -> Cursor {
    let line = columns::clamped_line(t, c.line as int) as usize;
    let n = columns::col_count(t, line as int);
    if c.col > n {
        Cursor { line, col: n as usize, preferred_col: n as usize }
    } else {
        Cursor { line, ..c }
    }
}

/// A buffer cleaned up for saving, and the cursor after that. A buffer that
/// is clean already stays as it is.
pub open spec fn cleaned(b: BufferView, clock: u64, c: Cursor) -> (BufferView, u64, Cursor) {
    let ops = clean_ops(b.text);
    if ops.len() == 0 {
        (b, clock, c)
    } else {
        let new_text = clean(b.text);
        let after = pulled_in(new_text, c);
        (edit::edited(b, clock, new_text, ops, c, after), edits::bumped(clock), after)
    }
}

fn is_strippable(c: char) -> (r: bool)
    ensures
        r == strippable(c),
{
    c == ' ' || c == '\t'
}

/// Strips blanks at the ends of lines and adds a final newline, as one
/// step that can be undone. Returns the cursor, pulled back where it stood
/// on stripped blanks.
pub fn apply_save_cleanup(eb: &mut EditedBuffer, clock: &mut u64, cursor: Cursor) -> (after: Cursor)
    ensures
        (final(eb)@, *final(clock), after) == cleaned(old(eb)@, *old(clock), cursor),
        truth::truthful(old(eb)@) ==> truth::truthful(final(eb)@),
{
    let ghost t = text::rope_text(eb.rope);
    let n: usize = rope_len(&eb.rope);
    if n == 0 {
        assert(clean_ops(t) =~= Seq::<OpView>::empty());
        return cursor;
    }
    let mut rope = rope_clone(&eb.rope);
    let mut ops: Vec<EditOp> = Vec::new();
    assert(edits::op_views(ops@) =~= Seq::<OpView>::empty());
    if rope_char(&eb.rope, n - 1) != '\n' {
        let mut nl = String::new();
        nl.push('\n');
        assert(nl@ =~= seq!['\n']);
        rope_insert(&mut rope, n, nl.as_str());
        ops.push(EditOp::Insert { at: n, text: nl });
        assert(edits::op_views(ops@) =~= seq![OpView::Insert { at: n as int, text: seq!['\n'] }]);
    }
    let ghost total = clean_ops(t);
    assert(total =~= edits::op_views(ops@) + strip_ops(t, n as int));
    assert(text::rope_text(rope) =~= t.subrange(0, n as int) + clean_from(t, n as int));
    let mut i: usize = n;
    let mut bare: bool = true;
    while i > 0
        invariant
            i <= n,
            n == t.len(),
            t == text::rope_text(eb.rope),
            eb@ == old(eb)@,
            bare == only_blanks_left(t, i as int),
            text::rope_text(rope) == t.subrange(0, i as int) + clean_from(t, i as int),
            total == edits::op_views(ops@) + strip_ops(t, i as int),
        decreases i,
    {
        let c = rope_char(&eb.rope, i - 1);
        if bare && is_strippable(c) {
            let mut p: usize = i - 1;
            while p > 0 && is_strippable(rope_char(&eb.rope, p - 1))
                invariant
                    p < i <= n,
                    n == t.len(),
                    t == text::rope_text(eb.rope),
                    only_blanks_left(t, p + 1),
                    trailing(t, p as int),
                    run_start(t, i as int) == run_start(t, p + 1),
                    forall|j: int| p <= j < i ==> trailing(t, j),
                decreases p,
            {
                p = p - 1;
                assert(only_blanks_left(t, p + 1));
                assert(trailing(t, p as int));
            }
            proof {
                assert(run_start(t, p + 1) == run_start(t, p as int));
                assert(!(p > 0 && trailing(t, p - 1)));
                assert(run_start(t, i as int) == p);
                lemma_clean_skip(t, p as int, i as int);
            }
            let gone = rope_slice(&eb.rope, p, i);
            let ghost rest = clean_from(t, i as int);
            rope_remove(&mut rope, p, i);
            assert(text::rope_text(rope) =~= t.subrange(0, p as int) + rest);
            let ghost was = ops@;
            ops.push(EditOp::Delete { at: p, text: gone });
            assert(edits::op_views(ops@) =~= edits::op_views(was).push(
                OpView::Delete { at: p as int, text: t.subrange(p as int, i as int) },
            ));
            assert(total =~= edits::op_views(ops@) + strip_ops(t, p as int));
            assert(only_blanks_left(t, p as int));
            i = p;
        } else {
            assert(!trailing(t, i - 1));
            assert(clean_from(t, i - 1) == seq![t[i - 1]] + clean_from(t, i as int));
            assert(text::rope_text(rope) =~= t.subrange(0, i - 1) + clean_from(t, i - 1));
            bare = c == '\n' || c == '\r';
            i = i - 1;
        }
    }
    assert(total =~= edits::op_views(ops@));
    assert(text::rope_text(rope) =~= clean(t));
    if ops.len() == 0 {
        return cursor;
    }
    let count: usize = rope_len_lines(&rope);
    let mut after = cursor;
    if after.line >= count {
        after.line = count - 1;
    }
    let cols: usize = line_grapheme_len(&rope, after.line);
    if after.col > cols {
        after.col = cols;
        after.preferred_col = cols;
    }
    bump(eb, rope);
    let seq: u64 = bump_u64(*clock);
    *clock = seq;
    eb.history.record(seq, ops, cursor, after, None);
    proof {
        clean_ops_clean(t);
        if truth::truthful(old(eb)@) {
            truth::recording_keeps_truth(
                old(eb)@.history,
                t,
                seq,
                total,
                cursor,
                after,
                None,
            );
        }
    }
    after
}

// ---------------------------------------------------------------------
// Requests to save
// ---------------------------------------------------------------------

pub open spec fn cleaning() -> buffers::Change {
    |t: TabView, b: BufferView, c: u64|
        {
            let (b2, c2, after) = cleaned(b, c, t.cursor);
            (edit::at_cursor(t, after), b2, c2)
        }
}

/// The active buffer cleaned up and set to be written, whether it has
/// changes or not.
pub open spec fn save_requested(tabs: TabsView, e: EditsView) -> (TabsView, EditsView) {
    match buffers::active_loaded(tabs, e) {
        None => (tabs, e),
        Some(i) => {
            let (t2, e2) = buffers::with_active(tabs, e, cleaning());
            (t2, EditsView { pending_saves: e2.pending_saves.insert(tabs.open[i].path), ..e2 })
        },
    }
}

/// Cleans up the active buffer and asks for it to be written.
pub fn request_save_active(tabs: &mut Tabs, edits: &mut BufferEdits)
    ensures
        (final(tabs)@, final(edits)@) == save_requested(old(tabs)@, old(edits)@),
        truth::all_truthful(old(edits)@) ==> truth::all_truthful(final(edits)@),
{
    let ghost e0 = edits@;
    match take_active(tabs, edits) {
        None => {},
        Some((i, tab, eb)) => {
            let mut tab = tab;
            let mut eb = eb;
            let path = tab.path.text.clone();
            let mut clock: u64 = edits.clock;
            let after = apply_save_cleanup(&mut eb, &mut clock, tab.cursor);
            tab.cursor = after;
            put_active(tabs, edits, i, path.clone(), tab, eb, clock);
            proof {
                buffers::lemma_take_put(e0, path@, eb@, clock);
                truth::lemma_kept(e0, path@, eb@, clock);
            }
            let ghost e1 = edits@;
            edits.queue_save(path);
            proof {
                truth::lemma_same_buffers(e1, edits@);
            }
        },
    }
}

/// Tab `i` cleaned up and set to be written, if its buffer was dirty at
/// the start.
pub open spec fn tab_saved(
    tabs: TabsView,
    e: EditsView,
    start: EditsView,
    i: int,
) -> (TabsView, EditsView) {
    let t = tabs.open[i];
    if start.has(t.path) && edits::is_dirty(start.buffers[t.path]) {
        let (b2, c2, after) = cleaned(e.buffers[t.path], e.clock, t.cursor);
        let e2 = e.with_buffer(t.path, b2, c2);
        (
            tabs.with_tab(i, edit::at_cursor(t, after)),
            EditsView { pending_saves: e2.pending_saves.insert(t.path), ..e2 },
        )
    } else {
        (tabs, e)
    }
}

/// The first `n` tabs saved, one after the other.
pub open spec fn tabs_saved(tabs: TabsView, e: EditsView, n: int) -> (TabsView, EditsView)
    decreases n,
{
    if n <= 0 {
        (tabs, e)
    } else {
        let (t1, e1) = tabs_saved(tabs, e, n - 1);
        tab_saved(t1, e1, e, n - 1)
    }
}

/// Every open tab with unsaved changes cleaned up and set to be written.
pub open spec fn all_saved(tabs: TabsView, e: EditsView) -> (TabsView, EditsView) {
    tabs_saved(tabs, e, tabs.open.len() as int)
}

/// Asks for every open buffer with unsaved changes to be written, cleaned
/// up first.
pub fn request_save_all(tabs: &mut Tabs, edits: &mut BufferEdits)
    ensures
        (final(tabs)@, final(edits)@) == all_saved(old(tabs)@, old(edits)@),
        truth::all_truthful(old(edits)@) ==> truth::all_truthful(final(edits)@),
{
    let ghost t0 = tabs@;
    let ghost e0 = edits@;
    let n: usize = tabs.len();
    let mut dirty: Vec<bool> = Vec::new();
    let mut k: usize = 0;
    while k < n
        invariant
            k <= n,
            n == tabs@.open.len(),
            tabs@ == t0,
            edits@ == e0,
            dirty.len() == k,
            forall|j: int|
                0 <= j < k ==> #[trigger] dirty[j] == (e0.has(t0.open[j].path) && edits::is_dirty(
                    e0.buffers[t0.open[j].path],
                )),
        decreases n - k,
    {
        let d: bool = match edits.get(tabs.at(k).path.as_str()) {
            Some(eb) => eb.dirty(),
            None => false,
        };
        dirty.push(d);
        k = k + 1;
    }
    let mut i: usize = 0;
    while i < n
        invariant
            i <= n,
            n == t0.open.len(),
            dirty.len() == n,
            forall|j: int|
                0 <= j < n ==> #[trigger] dirty[j] == (e0.has(t0.open[j].path) && edits::is_dirty(
                    e0.buffers[t0.open[j].path],
                )),
            (tabs@, edits@) == tabs_saved(t0, e0, i as int),
            tabs@.open.len() == n,
            forall|j: int| 0 <= j < n ==> (#[trigger] tabs@.open[j]).path == t0.open[j].path,
            forall|p: Seq<char>| e0.has(p) ==> #[trigger] edits@.has(p),
            truth::all_truthful(e0) ==> truth::all_truthful(edits@),
        decreases n - i,
    {
        let ghost e1 = edits@;
        let ghost t1 = tabs@;
        assert(t1.open[i as int].path == t0.open[i as int].path);
        assert(tabs_saved(t0, e0, i + 1) == tab_saved(t1, e1, e0, i as int));
        if dirty[i] {
            let mut tab = tabs.at(i).copy();
            let path = tab.path.text.clone();
            let mut eb = edits.take(path.as_str()).unwrap();
            let mut clock: u64 = edits.clock;
            let after = apply_save_cleanup(&mut eb, &mut clock, tab.cursor);
            tab.cursor = after;
            put_active(tabs, edits, i, path.clone(), tab, eb, clock);
            proof {
                buffers::lemma_take_put(e1, path@, eb@, clock);
                truth::lemma_kept(e1, path@, eb@, clock);
            }
            let ghost e2 = edits@;
            edits.queue_save(path);
            proof {
                truth::lemma_same_buffers(e2, edits@);
            }
        }
        assert forall|p: Seq<char>| e0.has(p) implies #[trigger] edits@.has(p) by {
            assert(e1.has(p));
        }
        i = i + 1;
    }
}

// ---------------------------------------------------------------------
// Laws
// ---------------------------------------------------------------------

proof fn lemma_left_concat(a: Seq<char>, b: Seq<char>, i: int)
    requires
        a.len() > 0,
        a.last() == '\n',
        0 <= i < a.len() + b.len(),
    ensures
        i < a.len() ==> only_blanks_left(a + b, i) == only_blanks_left(a, i),
        i >= a.len() ==> only_blanks_left(a + b, i) == only_blanks_left(b, i - a.len()),
    decreases a.len() + b.len() - i,
{
    let t = a + b;
    if i < a.len() {
        assert(t[i] == a[i]);
        if i + 1 < a.len() {
            lemma_left_concat(a, b, i + 1);
        }
    } else {
        assert(t[i] == b[i - a.len()]);
        if i + 1 < t.len() {
            lemma_left_concat(a, b, i + 1);
        } else {
            assert(only_blanks_left(t, i + 1));
            assert(only_blanks_left(b, i + 1 - a.len()));
        }
    }
}

proof fn lemma_clean_concat(a: Seq<char>, b: Seq<char>, i: int)
    requires
        a.len() > 0,
        a.last() == '\n',
        0 <= i <= a.len() + b.len(),
    ensures
        i >= a.len() ==> clean_from(a + b, i) == clean_from(b, i - a.len()),
        i < a.len() ==> clean_from(a + b, i) == clean_from(a, i) + clean(b),
    decreases a.len() + b.len() - i,
{
    let t = a + b;
    if i == t.len() {
        if b.len() > 0 {
            assert(t.last() == b.last());
        } else {
            assert(t =~= a);
        }
    } else {
        lemma_clean_concat(a, b, i + 1);
        if i + 1 < t.len() {
            lemma_left_concat(a, b, i + 1);
        } else {
            assert(only_blanks_left(t, i + 1));
            if i >= a.len() {
                assert(only_blanks_left(b, i + 1 - a.len()));
            } else {
                assert(only_blanks_left(a, i + 1));
            }
        }
        if i < a.len() {
            assert(t[i] == a[i]);
            if i + 1 == a.len() {
                assert(a[i] == '\n');
                assert(clean_from(a, i + 1) =~= seq![]);
                assert(clean_from(t, i) =~= clean_from(a, i) + clean(b));
            } else {
                assert(trailing(t, i) == trailing(a, i));
                assert(clean_from(t, i) =~= clean_from(a, i) + clean(b));
            }
        } else {
            assert(t[i] == b[i - a.len()]);
            assert(trailing(t, i) == trailing(b, i - a.len()));
        }
    }
}

/// Cleaning goes line by line: what it makes of a line does not depend on
/// the others.
pub proof fn cleaning_goes_line_by_line(a: Seq<char>, b: Seq<char>)
    requires
        a.len() > 0,
        a.last() == '\n',
    ensures
        clean(a + b) == clean(a) + clean(b),
{
    lemma_clean_concat(a, b, 0);
}

proof fn lemma_line(y: Seq<char>, w: Seq<char>, z: Seq<char>, i: int)
    requires
        z == Seq::<char>::empty() || z == seq!['\n'],
        forall|k: int| 0 <= k < y.len() ==> y[k] != '\n' && y[k] != '\r',
        forall|k: int| 0 <= k < w.len() ==> w[k] == ' ' || w[k] == '\t',
        y.len() > 0 ==> y.last() != ' ' && y.last() != '\t',
        0 <= i <= y.len() + w.len() + z.len(),
    ensures
        ({
            let t = y + w + z;
            &&& i < y.len() ==> !only_blanks_left(t, i)
            &&& i >= y.len() ==> only_blanks_left(t, i)
            &&& t.len() > 0 && i <= y.len() ==> clean_from(t, i) == y.subrange(i, y.len() as int)
                + seq!['\n']
            &&& t.len() > 0 && y.len() <= i <= y.len() + w.len() ==> clean_from(t, i)
                == seq!['\n']
        }),
    decreases y.len() + w.len() + z.len() - i,
{
    let t = y + w + z;
    if i < t.len() {
        lemma_line(y, w, z, i + 1);
        if i < y.len() {
            assert(t[i] == y[i]);
            if i + 1 == y.len() {
                assert(y.last() == y[i]);
                assert(!strippable(t[i]) && !ends_line(t[i]));
            } else {
                assert(!ends_line(t[i]));
            }
            assert(!trailing(t, i)) by {
                if i + 1 < y.len() {
                    assert(!only_blanks_left(t, i + 1));
                }
            }
            assert(y.subrange(i, y.len() as int) =~= seq![y[i]] + y.subrange(
                i + 1,
                y.len() as int,
            ));
            assert(clean_from(t, i) =~= y.subrange(i, y.len() as int) + seq!['\n']);
        } else if i < y.len() + w.len() {
            assert(t[i] == w[i - y.len()]);
            assert(trailing(t, i));
            assert(y.subrange(y.len() as int, y.len() as int) + seq!['\n'] =~= seq!['\n']);
        } else {
            assert(t[i] == '\n');
            assert(t.last() == '\n');
            assert(clean_from(t, i + 1) =~= seq![]);
            assert(clean_from(t, i) =~= seq!['\n']);
            assert(y.subrange(y.len() as int, y.len() as int) + seq!['\n'] =~= seq!['\n']);
        }
    } else if t.len() > 0 {
        if z.len() == 0 {
            assert(t.last() != '\n') by {
                if w.len() > 0 {
                    assert(t.last() == w.last());
                } else {
                    assert(t.last() == y.last());
                }
            }
            assert(clean_from(t, i) =~= seq!['\n']);
        }
        assert(y.subrange(y.len() as int, y.len() as int) + seq!['\n'] =~= seq!['\n']);
    }
}

/// Of a line the blanks at its end go and all else stays; a last line
/// without a newline gets one, and an empty text stays empty.
pub proof fn cleaning_a_line_strips_its_end(y: Seq<char>, w: Seq<char>)
    requires
        forall|k: int| 0 <= k < y.len() ==> y[k] != '\n' && y[k] != '\r',
        forall|k: int| 0 <= k < w.len() ==> w[k] == ' ' || w[k] == '\t',
        y.len() > 0 ==> y.last() != ' ' && y.last() != '\t',
    ensures
        clean(y + w + seq!['\n']) == y + seq!['\n'],
        y.len() + w.len() > 0 ==> clean(y + w) == y + seq!['\n'],
        clean(Seq::<char>::empty()) == Seq::<char>::empty(),
{
    lemma_line(y, w, seq!['\n'], 0);
    assert(y.subrange(0, y.len() as int) =~= y);
    assert(y + w + Seq::<char>::empty() =~= y + w);
    lemma_line(y, w, Seq::<char>::empty(), 0);
}

proof fn lemma_ops_or_clean(t: Seq<char>)
    ensures
        clean_ops(t).len() == 0 ==> clean(t) == t,
{
    clean_ops_clean(t);
}

/// The clean-up before a save leaves the clean text and a cursor that
/// stays, unless it stood in what was stripped; an undo takes it back.
pub proof fn cleaning_up_a_buffer_cleans_its_text(b: BufferView, clock: u64, c: Cursor)
    requires
        c.line < text::line_count(clean(b.text)) <= usize::MAX,
    ensures
        ({
            let (b2, clock2, c2) = cleaned(b, clock, c);
            let n = columns::col_count(clean(b.text), c.line as int);
            &&& b2.text == clean(b.text)
            &&& b.text == clean(b.text) ==> b2.text == b.text
            &&& b2.text != b.text ==> undo::buffer_undone(b2).text == b.text
            &&& b2.saved_version == b.saved_version
            &&& c.col <= n ==> c2 == c
            &&& c.col > n && b2.text != b.text ==> c2 == (Cursor {
                line: c.line,
                col: n as usize,
                preferred_col: n as usize,
            })
        }),
{
    clean_ops_clean(b.text);
    lemma_ops_or_clean(b.text);
    let ops = clean_ops(b.text);
    if ops.len() > 0 {
        undo::undo_takes_back_a_recorded_edit(
            b,
            edits::bumped(clock),
            ops,
            c,
            pulled_in(clean(b.text), c),
        );
    }
}

/// A save cleans the active buffer and asks for it to be written, also if
/// it has no changes; no other buffer is touched or written.
pub proof fn saving_writes_the_active_buffer(t: TabsView, e: EditsView, i: int)
    requires
        buffers::active_loaded(t, e) == Some(i),
    ensures
        ({
            let (t2, e2) = save_requested(t, e);
            let path = t.open[i].path;
            &&& e2.buffers[path].text == clean(e.buffers[path].text)
            &&& e2.pending_saves == e.pending_saves.insert(path)
            &&& crate::tabs::others_kept(t, t2, i)
            &&& t2.open[i] == (TabView { cursor: t2.open[i].cursor, ..t.open[i] })
            &&& forall|p: Seq<char>|
                p != path ==> #[trigger] e2.buffers[p] == e.buffers[p] && e2.has(p) == e.has(p)
        }),
{
    buffers::a_change_is_made_in_the_active_tab(t, e, cleaning());
    clean_ops_clean(e.buffers[t.open[i].path].text);
    lemma_ops_or_clean(e.buffers[t.open[i].path].text);
}

proof fn lemma_tabs_saved(t: TabsView, e: EditsView, n: int, p: Seq<char>)
    requires
        0 <= n <= t.open.len(),
        e.has(p),
    ensures
        ({
            let (t2, e2) = tabs_saved(t, e, n);
            let due = edits::is_dirty(e.buffers[p]) && exists|j: int|
                0 <= j < n && #[trigger] t.open[j].path == p;
            &&& t2.open.len() == t.open.len()
            &&& t2.active == t.active
            &&& forall|j: int|
                0 <= j < t.open.len() ==> #[trigger] t2.open[j] == (TabView {
                    cursor: t2.open[j].cursor,
                    ..t.open[j]
                })
            &&& e2.has(p)
            &&& !due ==> e2.buffers[p] == e.buffers[p]
            &&& due ==> e2.buffers[p].text == clean(e.buffers[p].text)
            &&& e2.pending_saves.contains(p) <==> due || e.pending_saves.contains(p)
        }),
    decreases n,
{
    if n > 0 {
        lemma_tabs_saved(t, e, n - 1, p);
        let (t1, e1) = tabs_saved(t, e, n - 1);
        let x = t.open[n - 1].path;
        assert(t1.open[n - 1] == (TabView { cursor: t1.open[n - 1].cursor, ..t.open[n - 1] }));
        if x == p {
            clean_ops_clean(e1.buffers[p].text);
            lemma_ops_or_clean(e1.buffers[p].text);
            cleaning_is_idempotent(e.buffers[p].text);
            assert(t.open[n - 1].path == p);
        } else {
            if exists|j: int| 0 <= j < n && #[trigger] t.open[j].path == p {
                let j = choose|j: int| 0 <= j < n && #[trigger] t.open[j].path == p;
                assert(0 <= j < n - 1 && t.open[j].path == p);
            }
        }
    }
}

/// Saving everything cleans and writes the buffer of every open tab that
/// has changes, and no other.
pub proof fn saving_all_writes_what_has_changes(t: TabsView, e: EditsView, p: Seq<char>)
    requires
        e.has(p),
    ensures
        ({
            let (t2, e2) = all_saved(t, e);
            let due = edits::is_dirty(e.buffers[p]) && exists|j: int|
                0 <= j < t.open.len() && #[trigger] t.open[j].path == p;
            &&& t2.open.len() == t.open.len()
            &&& t2.active == t.active
            &&& e2.has(p)
            &&& !due ==> e2.buffers[p] == e.buffers[p]
            &&& due ==> e2.buffers[p].text == clean(e.buffers[p].text)
            &&& e2.pending_saves.contains(p) <==> due || e.pending_saves.contains(p)
        }),
{
    lemma_tabs_saved(t, e, t.open.len() as int, p);
}

} // verus!
