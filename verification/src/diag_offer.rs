//! Taking remarks that were made for an older text.

use vstd::prelude::*;

use crate::diagnostics::Diagnostic;
use crate::edits;
use crate::edits::{
    apply_op_within, copy_ops, hash_rope, invert_op_within, BufferView, EditOp, EditedBuffer,
    GroupView, OpView,
};
use crate::text;
use crate::text::{rope_char_to_line, rope_clone, rope_len};

verus! {

/// What becomes of remarks that come in.
pub enum OfferOutcome {
    /// They hold of the current text as given here.
    Accept(Vec<Diagnostic>),
    /// They were made for a text that is not known any more.
    Reject,
}

/// The operations of the groups from `k` on, one after the other.
pub open spec fn ops_from(past: Seq<GroupView>, k: int) -> Seq<OpView>
    decreases past.len() - k,
{
    if k < 0 || k >= past.len() {
        seq![]
    } else {
        past[k].ops + ops_from(past, k + 1)
    }
}

/// How many line feeds the first `n` characters hold.
pub open spec fn line_feeds(s: Seq<char>, n: int) -> int
    decreases n,
{
    if n <= 0 || n > s.len() {
        0
    } else if s[n - 1] == '\n' {
        line_feeds(s, n - 1) + 1
    } else {
        line_feeds(s, n - 1)
    }
}

/// The row where an operation is about to work, and how many rows it adds.
pub open spec fn described(doc: Seq<char>, op: OpView) -> (int, int) {
    match op {
        OpView::Insert { at, text } => (
            text::line_of(doc, edits::least(at, doc.len() as int)) as int,
            line_feeds(text, text.len() as int),
        ),
        OpView::Delete { at, text } => (
            text::line_of(doc, edits::least(at, doc.len() as int)) as int,
            -line_feeds(text, text.len() as int),
        ),
    }
}

/// A line behind an edited row, moved by the rows that were added.
pub open spec fn shifted(line: usize, row: int, delta: int) -> usize {
    if line > row {
        if line + delta < 0 {
            0
        } else if line + delta > usize::MAX {
            usize::MAX
        } else {
            (line + delta) as usize
        }
    } else {
        line
    }
}

/// A remark outlives an edit. An edit within a row ends those on it, a
/// deletion of rows those inside it.
pub open spec fn outlives(d: Diagnostic, row: int, delta: int) -> bool {
    if delta == 0 {
        !(d.start_line <= row && d.end_line >= row)
    } else if delta < 0 {
        !(d.start_line >= row && d.end_line <= row - delta)
    } else {
        true
    }
}

/// A remark moved along with an edit.
pub open spec fn moved(d: Diagnostic, row: int, delta: int) -> Diagnostic {
    Diagnostic {
        start_line: shifted(d.start_line, row, delta),
        end_line: shifted(d.end_line, row, delta),
        ..d
    }
}

/// The first `n` remarks after an edit.
pub open spec fn after_edit(ds: Seq<Diagnostic>, n: int, row: int, delta: int) -> Seq<Diagnostic>
    decreases n,
{
    if n <= 0 || n > ds.len() {
        seq![]
    } else if outlives(ds[n - 1], row, delta) {
        after_edit(ds, n - 1, row, delta).push(moved(ds[n - 1], row, delta))
    } else {
        after_edit(ds, n - 1, row, delta)
    }
}

/// The remarks after the operations from `i` on were applied to `doc`.
pub open spec fn replayed(doc: Seq<char>, ops: Seq<OpView>, i: int, ds: Seq<Diagnostic>) -> Seq<
    Diagnostic,
>
    decreases ops.len() - i,
{
    if i < 0 || i >= ops.len() {
        ds
    } else {
        let (row, delta) = described(doc, ops[i]);
        replayed(
            edits::op_applied_within(doc, ops[i]),
            ops,
            i + 1,
            after_edit(ds, ds.len() as int, row, delta),
        )
    }
}

/// What becomes of remarks that were made for a text with a given hash:
/// they hold as they are if that is the current text; if it was saved they
/// follow the edits since then; else nothing is known of them.
pub open spec fn offered(b: BufferView, stamped: u64, ds: Seq<Diagnostic>) -> Option<
    Seq<Diagnostic>,
> {
    if edits::content_hash(b.text) == stamped {
        Some(ds)
    } else {
        match edits::save_point(b.history.past, stamped, b.history.past.len() as int) {
            None => None,
            Some(k) => {
                let ops = ops_from(edits::finalised(b.history).past, k + 1);
                Some(replayed(edits::ops_inverted(b.text, ops, 0), ops, 0, ds))
            },
        }
    }
}

fn count_line_feeds(s: &str) -> (n: usize)
    ensures
        n == line_feeds(s@, s@.len() as int),
{
    let len: usize = s.unicode_len();
    let mut n: usize = 0;
    let mut i: usize = 0;
    while i < len
        invariant
            i <= len,
            len == s@.len(),
            n <= i,
            n == line_feeds(s@, i as int),
        decreases len - i,
    {
        if s.get_char(i) == '\n' {
            n = n + 1;
        }
        i = i + 1;
    }
    n
}

fn row_at(doc: &ropey::Rope, at: usize) -> (row: usize)
    ensures
        row == text::line_of(
            text::rope_text(*doc),
            edits::least(at as int, text::rope_text(*doc).len() as int),
        ),
{
    let n: usize = rope_len(doc);
    let i: usize = if at < n {
        at
    } else {
        n
    };
    proof {
        text::lemma_line_of(text::rope_text(*doc), i as int);
    }
    rope_char_to_line(doc, i)
}

fn describe_op(doc: &ropey::Rope, op: &EditOp) -> (r: (usize, i128))
    ensures
        (r.0 as int, r.1 as int) == described(text::rope_text(*doc), op@),
        -(usize::MAX as int) <= r.1 <= usize::MAX,
{
    match op {
        EditOp::Insert { at, text } => (
            row_at(doc, *at),
            count_line_feeds(text.as_str()) as i128,
        ),
        EditOp::Delete { at, text } => (
            row_at(doc, *at),
            -(count_line_feeds(text.as_str()) as i128),
        ),
    }
}

fn shift(line: usize, row: usize, delta: i128) -> (r: usize)
    requires
        -(usize::MAX as int) <= delta <= usize::MAX,
    ensures
        r == shifted(line, row as int, delta as int),
{
    if line > row {
        let x: i128 = line as i128 + delta;
        if x < 0 {
            0
        } else if x > usize::MAX as i128 {
            usize::MAX
        } else {
            x as usize
        }
    } else {
        line
    }
}

fn follow_edit(ds: &Vec<Diagnostic>, row: usize, delta: i128) -> (out: Vec<Diagnostic>)
    requires
        -(usize::MAX as int) <= delta <= usize::MAX,
    ensures
        out@ == after_edit(ds@, ds.len() as int, row as int, delta as int),
{
    let mut out: Vec<Diagnostic> = Vec::new();
    let mut i: usize = 0;
    while i < ds.len()
        invariant
            i <= ds.len(),
            -(usize::MAX as int) <= delta <= usize::MAX,
            out@ == after_edit(ds@, i as int, row as int, delta as int),
        decreases ds.len() - i,
    {
        let a: usize = ds[i].start_line;
        let b: usize = ds[i].end_line;
        let lives: bool = if delta == 0 {
            !(a <= row && b >= row)
        } else if delta < 0 {
            !(a >= row && b as i128 <= row as i128 - delta)
        } else {
            true
        };
        if lives {
            let mut d = ds[i].copy();
            d.start_line = shift(a, row, delta);
            d.end_line = shift(b, row, delta);
            out.push(d);
        }
        i = i + 1;
    }
    out
}

fn collect_ops(eb: &EditedBuffer, k: usize) -> (v: Vec<EditOp>)
    requires
        k <= eb@.history.past.len(),
    ensures
        edits::op_views(v@) == ops_from(edits::finalised(eb@.history).past, k as int),
{
    let ghost f = edits::finalised(eb@.history).past;
    let ghost n = eb@.history.past.len() as int;
    let mut v: Vec<EditOp> = match &eb.history.open {
        Some(g) => {
            assert(f[n] == g@);
            assert(ops_from(f, n + 1) =~= seq![]);
            assert(ops_from(f, n) =~= g@.ops);
            copy_ops(&g.ops)
        },
        None => Vec::new(),
    };
    assert(edits::op_views(v@) =~= ops_from(f, n));
    let mut i: usize = eb.history.past.len();
    while i > k
        invariant
            k <= i <= eb.history.past.len(),
            f == edits::finalised(eb@.history).past,
            edits::op_views(v@) == ops_from(f, i as int),
        decreases i,
    {
        let g = &eb.history.past[i - 1];
        assert(eb@.history.past[i - 1] == g@);
        assert(f[i - 1] == g@);
        let mut w = copy_ops(&g.ops);
        let ghost w0 = w@;
        let ghost v0 = v@;
        w.append(&mut v);
        assert(edits::op_views(w@) =~= edits::op_views(w0) + edits::op_views(v0));
        v = w;
        i = i - 1;
    }
    v
}

/// Decides what becomes of remarks that were made for the text with a
/// given hash.
pub fn offer_diagnostics(eb: &EditedBuffer, stamped: u64, diags: Vec<Diagnostic>) -> (r:
    OfferOutcome)
    ensures
        match r {
            OfferOutcome::Accept(v) => offered(eb@, stamped, diags@) == Some(v@),
            OfferOutcome::Reject => offered(eb@, stamped, diags@) is None,
        },
{
    if hash_rope(&eb.rope) == stamped {
        return OfferOutcome::Accept(diags);
    }
    let k: usize = match eb.history.find_save_point(stamped) {
        Some(k) => k,
        None => {
            return OfferOutcome::Reject;
        },
    };
    let count: usize = eb.history.past.len();
    assert(k < count);
    let ops = collect_ops(eb, k + 1);
    let ghost q = edits::op_views(ops@);
    let mut doc = rope_clone(&eb.rope);
    let mut i: usize = ops.len();
    while i > 0
        invariant
            i <= ops.len(),
            q == edits::op_views(ops@),
            text::rope_text(doc) == edits::ops_inverted(eb@.text, q, i as int),
        decreases i,
    {
        i = i - 1;
        assert(q[i as int] == ops[i as int]@);
        invert_op_within(&mut doc, &ops[i]);
    }
    let ghost doc0 = text::rope_text(doc);
    let ghost ds0 = diags@;
    let mut working = diags;
    let mut j: usize = 0;
    while j < ops.len()
        invariant
            j <= ops.len(),
            q == edits::op_views(ops@),
            replayed(doc0, q, 0, ds0) == replayed(
                text::rope_text(doc),
                q,
                j as int,
                working@,
            ),
        decreases ops.len() - j,
    {
        assert(q[j as int] == ops[j as int]@);
        let (row, delta) = describe_op(&doc, &ops[j]);
        working = follow_edit(&working, row, delta);
        apply_op_within(&mut doc, &ops[j]);
        j = j + 1;
    }
    OfferOutcome::Accept(working)
}

// ---------------------------------------------------------------------
// Laws
// ---------------------------------------------------------------------

/// Remarks for the current text are taken as they are.
pub proof fn remarks_for_the_current_text_hold(b: BufferView, ds: Seq<Diagnostic>)
    ensures
        offered(b, edits::content_hash(b.text), ds) == Some(ds),
{
}

/// Remarks for a text that is neither the current one nor was saved are
/// turned away, and no others.
pub proof fn unknown_texts_are_rejected(b: BufferView, stamped: u64, ds: Seq<Diagnostic>)
    ensures
        offered(b, stamped, ds) is None <==> edits::content_hash(b.text) != stamped
            && edits::save_point(b.history.past, stamped, b.history.past.len() as int) is None,
{
}

/// A remark that ends above the row of an edit stays as it is.
pub proof fn remarks_above_an_edit_stay(ds: Seq<Diagnostic>, n: int, row: int, delta: int, k: int)
    requires
        0 <= n <= ds.len(),
        0 <= k < n,
        ds[k].end_line < row,
        ds[k].start_line <= ds[k].end_line,
    ensures
        after_edit(ds, n, row, delta).contains(ds[k]),
    decreases n,
{
    let all = after_edit(ds, n, row, delta);
    if k == n - 1 {
        assert(moved(ds[k], row, delta) == ds[k]);
        assert(all[all.len() - 1] == ds[k]);
    } else {
        remarks_above_an_edit_stay(ds, n - 1, row, delta, k);
        let rest = after_edit(ds, n - 1, row, delta);
        let i = choose|i: int| 0 <= i < rest.len() && rest[i] == ds[k];
        assert(all[i] == ds[k]);
    }
}

/// A remark with both its lines moved.
pub open spec fn on_lines(d: Diagnostic, start: int, end: int) -> Diagnostic {
    Diagnostic { start_line: start as usize, end_line: end as usize, ..d }
}

/// What an edit at `row` that adds `delta` rows, or takes that many away,
/// does to a remark: one that lies wholly below the rows that it touches
/// moves by `delta` lines, up or down; one above it stays; one that reaches
/// over it keeps its start, and its end moves; one on a row that is only
/// changed, or inside rows that are gone, is gone too.
pub proof fn remarks_follow_an_edit(ds: Seq<Diagnostic>, row: int, delta: int, k: int)
    requires
        0 <= k < ds.len(),
        ds[k].start_line <= ds[k].end_line,
        0 <= row,
    ensures
        ({
            let d = ds[k];
            let out = after_edit(ds, ds.len() as int, row, delta);
            &&& d.end_line < row ==> out.contains(d)
            &&& d.start_line > row && (delta >= 0 || d.start_line > row - delta) && d.end_line + delta
                <= usize::MAX ==> out.contains(
                on_lines(d, d.start_line + delta, d.end_line + delta),
            )
            &&& d.start_line < row && d.end_line > row && (delta > 0 || (delta < 0 && d.end_line
                > row - delta)) && d.end_line + delta <= usize::MAX ==> out.contains(on_lines(d, d.start_line as int, d.end_line + delta))
        }),
{
    let d = ds[k];
    let out = after_edit(ds, ds.len() as int, row, delta);
    if outlives(d, row, delta) {
        lemma_survivors(ds, ds.len() as int, row, delta, k);
    }
}

proof fn lemma_survivors(ds: Seq<Diagnostic>, n: int, row: int, delta: int, k: int)
    requires
        0 <= k < n <= ds.len(),
        outlives(ds[k], row, delta),
    ensures
        after_edit(ds, n, row, delta).contains(moved(ds[k], row, delta)),
    decreases n,
{
    let all = after_edit(ds, n, row, delta);
    let x = moved(ds[k], row, delta);
    if k == n - 1 {
        assert(all[all.len() - 1] == x);
    } else {
        lemma_survivors(ds, n - 1, row, delta, k);
        let rest = after_edit(ds, n - 1, row, delta);
        let i = choose|i: int| 0 <= i < rest.len() && rest[i] == x;
        assert(all[i] == x);
    }
}

/// No remark is made up: each that is left is one of those that came, with
/// the same text, columns and severity, and none was on a row that was only
/// changed or inside rows that are gone.
pub proof fn remarks_are_not_made_up(ds: Seq<Diagnostic>, n: int, row: int, delta: int, i: int)
    requires
        0 <= n <= ds.len(),
        0 <= i < after_edit(ds, n, row, delta).len(),
    ensures
        exists|k: int|
            0 <= k < n && ({
                let d = #[trigger] ds[k];
                let x = after_edit(ds, n, row, delta)[i];
                &&& x == (Diagnostic { start_line: x.start_line, end_line: x.end_line, ..d })
                &&& delta == 0 ==> !(d.start_line <= row <= d.end_line)
                &&& delta < 0 ==> !(row <= d.start_line && d.end_line <= row - delta)
            }),
    decreases n,
{
    if n > 0 {
        let rest = after_edit(ds, n - 1, row, delta);
        if i < rest.len() {
            remarks_are_not_made_up(ds, n - 1, row, delta, i);
            assert(after_edit(ds, n, row, delta)[i] == rest[i]);
        } else {
            assert(after_edit(ds, n, row, delta)[i] == moved(ds[n - 1], row, delta));
        }
    }
}

/// The line that a line has become once the operations from `i` on were
/// applied; none if one of them works on it.
pub open spec fn carried(doc: Seq<char>, ops: Seq<OpView>, i: int, line: int) -> Option<int>
    decreases ops.len() - i,
{
    if i < 0 || i >= ops.len() {
        Some(line)
    } else {
        let next = edits::op_applied(doc, ops[i]);
        match ops[i] {
            OpView::Insert { at, text } => {
                let row = text::breaks_before(doc, at);
                if line < row {
                    carried(next, ops, i + 1, line)
                } else if line > row {
                    carried(next, ops, i + 1, line + text::feeds(text))
                } else {
                    None
                }
            },
            OpView::Delete { at, text } => {
                let row = text::breaks_before(doc, at);
                if line < row {
                    carried(next, ops, i + 1, line)
                } else if line > row + text::feeds(text) {
                    carried(next, ops, i + 1, line - text::feeds(text))
                } else {
                    None
                }
            },
        }
    }
}

/// The operations from `i` on truly apply one after the other, and lines
/// end in line feeds throughout.
pub open spec fn plainly_true(doc: Seq<char>, ops: Seq<OpView>, i: int) -> bool
    decreases ops.len() - i,
{
    &&& text::plain_lines(doc)
    &&& 0 <= i < ops.len() ==> {
        &&& edits::op_true(doc, ops[i])
        &&& match ops[i] {
            OpView::Insert { at, text } => text::plain_lines(text),
            OpView::Delete { at, text } => text::plain_lines(text),
        }
        &&& plainly_true(edits::op_applied(doc, ops[i]), ops, i + 1)
    }
}

/// The text after the operations from `i` on.
pub open spec fn text_after(doc: Seq<char>, ops: Seq<OpView>, i: int) -> Seq<char>
    decreases ops.len() - i,
{
    if i < 0 || i >= ops.len() {
        doc
    } else {
        text_after(edits::op_applied(doc, ops[i]), ops, i + 1)
    }
}

proof fn lemma_feeds_agree(s: Seq<char>, n: int)
    requires
        0 <= n <= s.len(),
    ensures
        line_feeds(s, n) == text::feeds(s.subrange(0, n)),
        line_feeds(s, n) >= 0,
    decreases n,
{
    if n > 0 {
        lemma_feeds_agree(s, n - 1);
        assert(s.subrange(0, n).drop_last() =~= s.subrange(0, n - 1));
        assert(s.subrange(0, n).last() == s[n - 1]);
    }
}

/// Below and above an operation lines keep their text.
proof fn lemma_line_kept(doc: Seq<char>, op: OpView, line: int)
    requires
        text::plain_lines(doc),
        edits::op_true(doc, op),
        match op {
            OpView::Insert { at, text } => text::plain_lines(text),
            OpView::Delete { at, text } => text::plain_lines(text),
        },
        0 <= line < text::line_count(doc),
        carried(doc, seq![op], 0, line) is Some,
    ensures
        ({
            let m = carried(doc, seq![op], 0, line)->0;
            let next = edits::op_applied(doc, op);
            &&& 0 <= m < text::line_count(next)
            &&& text::line_content(next, m) == text::line_content(doc, line)
        }),
{
    let next = edits::op_applied(doc, op);
    reveal_with_fuel(carried, 3);
    let m = carried(doc, seq![op], 0, line)->0;
    match op {
        OpView::Insert { at, text } => {
            lemma_feeds_agree(text, text.len() as int);
            assert(text.subrange(0, text.len() as int) =~= text);
            if line < text::breaks_before(doc, at) {
                assert(doc.subrange(0, at) =~= next.subrange(0, at));
                lemma_above(doc, next, at, line);
            } else {
                text::lines_below_an_insertion_keep_their_text(doc, at, text, line);
            }
        },
        OpView::Delete { at, text } => {
            lemma_feeds_agree(text, text.len() as int);
            assert(text.subrange(0, text.len() as int) =~= text);
            assert(doc =~= text::inserted(next, at, text));
            assert(text::plain_lines(next)) by {
                assert forall|i: int|
                    0 <= i < next.len() && text::is_break_char(#[trigger] next[i]) implies next[i]
                    == '\n' by {
                    if i < at {
                        assert(doc[i] == next[i]);
                    } else {
                        assert(doc[i + text.len()] == next[i]);
                    }
                }
            }
            text::lemma_feeds_are_breaks(doc, at);
            text::lemma_feeds_are_breaks(next, at);
            assert(doc.subrange(0, at) =~= next.subrange(0, at));
            if line < text::breaks_before(doc, at) {
                lemma_above(doc, next, at, line);
            } else {
                lemma_count(next, at, text);
                text::lines_below_an_insertion_keep_their_text(next, at, text, m);
            }
        },
    }
}

/// An insertion adds as many lines as it has line feeds.
proof fn lemma_count(t: Seq<char>, at: int, x: Seq<char>)
    requires
        text::plain_lines(t),
        text::plain_lines(text::inserted(t, at, x)),
        0 <= at <= t.len(),
    ensures
        text::line_count(text::inserted(t, at, x)) == text::line_count(t) + text::feeds(x),
{
    text::lemma_shift(t, text::inserted(t, at, x), at, x, t.len() as int);
}

proof fn lemma_above(t: Seq<char>, u: Seq<char>, at: int, line: int)
    requires
        text::plain_lines(t),
        0 <= at <= t.len(),
        at <= u.len(),
        t.subrange(0, at) == u.subrange(0, at),
        0 <= line < text::breaks_before(t, at),
    ensures
        line < text::line_count(u),
        text::line_content(u, line) == text::line_content(t, line),
{
    text::lemma_line_of(t, at);
    text::lemma_line_start_mono(t, line, line + 1);
    text::lemma_line_start_mono(t, line + 1, text::line_of(t, at) as int);
    text::lemma_line_start_mono(t, line + 1, line + 2);
    if at > 0 {
        assert(text::is_break_char(t[at - 1]) ==> t[at - 1] == '\n');
    }
    text::places_of_a_shared_beginning(t, u, at, line, 0);
    text::places_of_a_shared_beginning(t, u, at, line + 1, 0);
    text::lemma_line_start(t, line);
    let a = text::line_start(t, line);
    let b = text::line_start(t, line + 1);
    assert(t.subrange(a, b) =~= t.subrange(0, at).subrange(a, b));
    assert(u.subrange(a, b) =~= u.subrange(0, at).subrange(a, b));
    text::lemma_line_len(t, line);
    assert(text::line_content(t, line) =~= t.subrange(a, b).subrange(0, text::line_len(t, line)));
    assert(text::line_content(u, line) =~= u.subrange(a, b).subrange(0, text::line_len(u, line)));
}

/// A remark on a line that no operation works on comes out on the line
/// that this one has become, and the same text stands there.
pub proof fn remarks_stay_with_their_line(
    doc: Seq<char>,
    ops: Seq<OpView>,
    i: int,
    ds: Seq<Diagnostic>,
    k: int,
)
    requires
        plainly_true(doc, ops, i),
        0 <= i <= ops.len(),
        0 <= k < ds.len(),
        ds[k].start_line == ds[k].end_line,
        ds[k].start_line < text::line_count(doc),
        carried(doc, ops, i, ds[k].start_line as int) is Some,
        all_short(doc, ops, i),
    ensures
        ({
            let m = carried(doc, ops, i, ds[k].start_line as int)->0;
            let end = text_after(doc, ops, i);
            &&& 0 <= m < text::line_count(end)
            &&& text::line_content(end, m) == text::line_content(doc, ds[k].start_line as int)
            &&& replayed(doc, ops, i, ds).contains(on_lines(ds[k], m, m))
        }),
    decreases ops.len() - i,
{
    let d = ds[k];
    let line = d.start_line as int;
    if i == ops.len() {
        assert(ds[k] == on_lines(d, line, line));
        assert(ds.contains(ds[k]));
    } else {
        let op = ops[i];
        let next = edits::op_applied(doc, op);
        let (row, delta) = described(doc, op);
        reveal_with_fuel(carried, 3);
        assert(seq![op][0] == op);
        assert(edits::op_applied_within(doc, op) == next);
        match op {
            OpView::Insert { at, text } => {
                lemma_feeds_agree(text, text.len() as int);
                assert(text.subrange(0, text.len() as int) =~= text);
            },
            OpView::Delete { at, text } => {
                lemma_feeds_agree(text, text.len() as int);
                assert(text.subrange(0, text.len() as int) =~= text);
            },
        }
        let m = if line < row {
            line
        } else {
            line + delta
        };
        assert(carried(doc, seq![op], 0, line) == Some(m));
        lemma_line_kept(doc, op, line);
        text::lemma_breaks_mono(next, 0, next.len() as int);
        remarks_follow_an_edit(ds, row, delta, k);
        let rest = after_edit(ds, ds.len() as int, row, delta);
        let x = on_lines(d, m, m);
        reveal_with_fuel(all_short, 2);
        assert(next.len() < usize::MAX);
        assert(m <= usize::MAX);
        assert(x.start_line == m);
        assert(rest.contains(x));
        let j = choose|j: int| 0 <= j < rest.len() && rest[j] == x;
        assert(carried(doc, ops, i, line) == carried(next, ops, i + 1, m));
        remarks_stay_with_their_line(next, ops, i + 1, rest, j);
        let z = carried(next, ops, i + 1, m)->0;
        assert(on_lines(x, z, z) == on_lines(d, z, z));
    }
}

/// All texts on the way are short enough to have their characters counted.
pub open spec fn all_short(doc: Seq<char>, ops: Seq<OpView>, i: int) -> bool
    decreases ops.len() - i,
{
    doc.len() < usize::MAX && (0 <= i < ops.len() ==> all_short(
        edits::op_applied(doc, ops[i]),
        ops,
        i + 1,
    ))
}

/// Remarks that were made for a text that was saved follow what was done
/// since: each on a line that was not worked on is taken, on the line where
/// the same text stands now.
pub proof fn remarks_for_a_saved_text_are_carried_over(
    b: BufferView,
    stamped: u64,
    ds: Seq<Diagnostic>,
    saved: Seq<char>,
    k: int,
    j: int,
)
    requires
        edits::content_hash(b.text) != stamped,
        0 <= k < b.history.past.len(),
        b.history.past[k].save_point_hash == Some(stamped),
        forall|i: int|
            k < i < b.history.past.len() ==> (#[trigger] b.history.past[i]).save_point_hash != Some(
                stamped,
            ),
        ({
            let ops = ops_from(edits::finalised(b.history).past, k + 1);
            &&& plainly_true(saved, ops, 0)
            &&& all_short(saved, ops, 0)
            &&& text_after(saved, ops, 0) == b.text
            &&& 0 <= j < ds.len()
            &&& ds[j].start_line == ds[j].end_line
            &&& ds[j].start_line < text::line_count(saved)
            &&& carried(saved, ops, 0, ds[j].start_line as int) is Some
        }),
    ensures
        ({
            let ops = ops_from(edits::finalised(b.history).past, k + 1);
            let m = carried(saved, ops, 0, ds[j].start_line as int)->0;
            &&& offered(b, stamped, ds) is Some
            &&& (offered(b, stamped, ds)->0).contains(on_lines(ds[j], m, m))
            &&& 0 <= m < text::line_count(b.text)
            &&& text::line_content(b.text, m) == text::line_content(
                saved,
                ds[j].start_line as int,
            )
        }),
{
    let n = b.history.past.len() as int;
    let ops = ops_from(edits::finalised(b.history).past, k + 1);
    lemma_save_point(b.history.past, stamped, n, k);
    lemma_inverted(saved, ops, 0);
    remarks_stay_with_their_line(saved, ops, 0, ds, j);
}

proof fn lemma_save_point(past: Seq<GroupView>, stamped: u64, n: int, k: int)
    requires
        0 <= k < n <= past.len(),
        past[k].save_point_hash == Some(stamped),
        forall|i: int| k < i < n ==> (#[trigger] past[i]).save_point_hash != Some(stamped),
    ensures
        edits::save_point(past, stamped, n) == Some(k),
    decreases n,
{
    if k < n - 1 {
        assert(past[n - 1].save_point_hash != Some(stamped));
        lemma_save_point(past, stamped, n - 1, k);
    }
}

proof fn lemma_inverted(doc: Seq<char>, ops: Seq<OpView>, i: int)
    requires
        plainly_true(doc, ops, i),
        0 <= i <= ops.len(),
    ensures
        edits::ops_inverted(text_after(doc, ops, i), ops, i) == doc,
    decreases ops.len() - i,
{
    if i < ops.len() {
        let next = edits::op_applied(doc, ops[i]);
        lemma_inverted(next, ops, i + 1);
        edits::invert_undoes_apply(doc, ops[i]);
    }
}

} // verus!
