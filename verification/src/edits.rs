//! Buffers under edit and their undo history.

use vstd::prelude::*;

use crate::columns::Cursor;
use crate::text;
use crate::text::{rope_char, rope_insert, rope_len, rope_remove};

verus! {

// ---------------------------------------------------------------------
// Edit operations
// ---------------------------------------------------------------------

/// One change of a buffer's text.
pub enum EditOp {
    Insert { at: usize, text: String },
    Delete { at: usize, text: String },
}

pub enum OpView {
    Insert { at: int, text: Seq<char> },
    Delete { at: int, text: Seq<char> },
}

impl View for EditOp {
    type V = OpView;

    open spec fn view(&self) -> OpView {
        match self {
            EditOp::Insert { at, text } => OpView::Insert { at: *at as int, text: text@ },
            EditOp::Delete { at, text } => OpView::Delete { at: *at as int, text: text@ },
        }
    }
}

impl EditOp {
    pub fn copy(&self) -> (o: EditOp)
        ensures
            o == *self,
    {
        match self {
            EditOp::Insert { at, text } => EditOp::Insert { at: *at, text: text.clone() },
            EditOp::Delete { at, text } => EditOp::Delete { at: *at, text: text.clone() },
        }
    }
}

/// The text after an operation.
pub open spec fn op_applied(t: Seq<char>, op: OpView) -> Seq<char> {
    match op {
        OpView::Insert { at, text } => text::inserted(t, at, text),
        OpView::Delete { at, text } => text::removed(t, at, at + text.len()),
    }
}

/// The text before an operation, given the text after it.
pub open spec fn op_inverted(t: Seq<char>, op: OpView) -> Seq<char> {
    match op {
        OpView::Insert { at, text } => text::removed(t, at, at + text.len()),
        OpView::Delete { at, text } => text::inserted(t, at, text),
    }
}

/// The operation can be applied to the text.
pub open spec fn op_fits(t: Seq<char>, op: OpView) -> bool {
    match op {
        OpView::Insert { at, text } => 0 <= at <= t.len(),
        OpView::Delete { at, text } => 0 <= at && at + text.len() <= t.len(),
    }
}

/// The operation can be taken back from the text.
pub open spec fn op_backs(t: Seq<char>, op: OpView) -> bool {
    match op {
        OpView::Insert { at, text } => 0 <= at && at + text.len() <= t.len(),
        OpView::Delete { at, text } => 0 <= at <= t.len(),
    }
}

/// The operation applies to the text and removes what it says it removes.
pub open spec fn op_true(t: Seq<char>, op: OpView) -> bool {
    &&& op_fits(t, op)
    &&& op matches OpView::Delete { at, text } ==> t.subrange(at, at + text.len()) == text
}

/// Taking back an operation that truly applied gives the old text.
pub proof fn invert_undoes_apply(t: Seq<char>, op: OpView)
    requires
        op_true(t, op),
    ensures
        op_inverted(op_applied(t, op), op) == t,
        op_backs(op_applied(t, op), op),
{
    match op {
        OpView::Insert { at, text } => {
            assert(op_inverted(op_applied(t, op), op) =~= t);
        },
        OpView::Delete { at, text } => {
            assert(t =~= t.subrange(0, at) + t.subrange(at, at + text.len()) + t.subrange(
                at + text.len(),
                t.len() as int,
            ));
            assert(op_inverted(op_applied(t, op), op) =~= t);
        },
    }
}

/// The smaller of two numbers.
pub open spec fn least(a: int, b: int) -> int {
    if a < b {
        a
    } else {
        b
    }
}

/// An insertion, pulled into the text.
pub open spec fn inserted_within(t: Seq<char>, at: int, s: Seq<char>) -> Seq<char> {
    text::inserted(t, least(at, t.len() as int), s)
}

/// A removal of `n` characters, as far as the text reaches.
pub open spec fn removed_within(t: Seq<char>, at: int, n: int) -> Seq<char> {
    text::removed(t, least(at, t.len() as int), least(at + n, t.len() as int))
}

/// The text after an operation whose range is pulled into the text.
pub open spec fn op_applied_within(t: Seq<char>, op: OpView) -> Seq<char> {
    match op {
        OpView::Insert { at, text } => inserted_within(t, at, text),
        OpView::Delete { at, text } => removed_within(t, at, text.len() as int),
    }
}

/// The text with an operation taken back, its range pulled into the text.
pub open spec fn op_inverted_within(t: Seq<char>, op: OpView) -> Seq<char> {
    match op {
        OpView::Insert { at, text } => removed_within(t, at, text.len() as int),
        OpView::Delete { at, text } => inserted_within(t, at, text),
    }
}

/// The text after the first `n` operations.
pub open spec fn ops_applied(t: Seq<char>, ops: Seq<OpView>, n: int) -> Seq<char>
    decreases n,
{
    if n <= 0 || n > ops.len() {
        t
    } else {
        op_applied_within(ops_applied(t, ops, n - 1), ops[n - 1])
    }
}

/// The text with the operations from `n` on taken back, last one first.
pub open spec fn ops_inverted(t: Seq<char>, ops: Seq<OpView>, n: int) -> Seq<char>
    decreases ops.len() - n,
{
    if n < 0 || n >= ops.len() {
        t
    } else {
        op_inverted_within(ops_inverted(t, ops, n + 1), ops[n])
    }
}

/// Every operation truly applies to the text that those before it leave.
pub open spec fn ops_true(t: Seq<char>, ops: Seq<OpView>) -> bool {
    forall|i: int|
        0 <= i < ops.len() ==> op_true(#[trigger] ops_applied(t, ops, i), ops[i])
}

/// Undoing a run of operations that truly applied gives the old text.
pub proof fn inverting_ops_undoes_them(t: Seq<char>, ops: Seq<OpView>, n: int)
    requires
        ops_true(t, ops),
        0 <= n <= ops.len(),
    ensures
        ops_inverted(ops_applied(t, ops, ops.len() as int), ops, n) == ops_applied(t, ops, n),
    decreases ops.len() - n,
{
    if n < ops.len() {
        inverting_ops_undoes_them(t, ops, n + 1);
        let u = ops_applied(t, ops, n);
        assert(op_true(u, ops[n]));
        invert_undoes_apply(u, ops[n]);
        assert(op_applied_within(u, ops[n]) == op_applied(u, ops[n]));
        assert(op_inverted_within(op_applied(u, ops[n]), ops[n]) == op_inverted(
            op_applied(u, ops[n]),
            ops[n],
        ));
    }
}

/// Applying one run of operations and then another is applying both.
pub proof fn lemma_ops_concat(t: Seq<char>, a: Seq<OpView>, b: Seq<OpView>, k: int)
    requires
        0 <= k <= b.len(),
    ensures
        ops_applied(t, a + b, a.len() + k) == ops_applied(
            ops_applied(t, a, a.len() as int),
            b,
            k,
        ),
    decreases k,
{
    if k > 0 {
        lemma_ops_concat(t, a, b, k - 1);
        assert((a + b)[a.len() + k - 1] == b[k - 1]);
    } else {
        lemma_ops_prefix(t, a, b, a.len() as int);
    }
}

/// The first operations do not depend on what follows them.
pub proof fn lemma_ops_prefix(t: Seq<char>, a: Seq<OpView>, b: Seq<OpView>, k: int)
    requires
        0 <= k <= a.len(),
    ensures
        ops_applied(t, a + b, k) == ops_applied(t, a, k),
    decreases k,
{
    if k > 0 {
        lemma_ops_prefix(t, a, b, k - 1);
        assert((a + b)[k - 1] == a[k - 1]);
    }
}

/// Two runs of operations that truly apply one after the other truly apply
/// as one.
pub proof fn lemma_ops_true_concat(t: Seq<char>, a: Seq<OpView>, b: Seq<OpView>)
    requires
        ops_true(t, a),
        ops_true(ops_applied(t, a, a.len() as int), b),
    ensures
        ops_true(t, a + b),
{
    assert forall|i: int| 0 <= i < (a + b).len() implies op_true(
        #[trigger] ops_applied(t, a + b, i),
        (a + b)[i],
    ) by {
        if i < a.len() {
            lemma_ops_prefix(t, a, b, i);
            assert(op_true(ops_applied(t, a, i), a[i]));
        } else {
            lemma_ops_concat(t, a, b, i - a.len());
            assert(op_true(ops_applied(ops_applied(t, a, a.len() as int), b, i - a.len()), b[i - a.len()]));
        }
    }
}

/// A single operation as a run.
pub proof fn lemma_one_op(t: Seq<char>, op: OpView)
    requires
        op_true(t, op),
    ensures
        ops_true(t, seq![op]),
        ops_applied(t, seq![op], 1) == op_applied(t, op),
{
    let s = seq![op];
    assert(ops_applied(t, s, 0) == t);
    assert(ops_applied(t, s, 1) == op_applied_within(ops_applied(t, s, 0), s[0]));
    assert forall|i: int| 0 <= i < s.len() implies op_true(
        #[trigger] ops_applied(t, s, i),
        s[i],
    ) by {
        assert(i == 0);
    }
}

/// Puts a string into a rope, at the end if the position lies past it.
pub fn rope_insert_within(r: &mut ropey::Rope, at: usize, s: &str)
    ensures
        text::rope_text(*final(r)) == inserted_within(text::rope_text(*old(r)), at as int, s@),
{
    let n: usize = rope_len(r);
    let pos: usize = if at < n { at } else { n };
    rope_insert(r, pos, s);
}

/// Takes `len` characters out of a rope, as far as it reaches.
pub fn rope_remove_within(r: &mut ropey::Rope, at: usize, len: usize)
    ensures
        text::rope_text(*final(r)) == removed_within(text::rope_text(*old(r)), at as int, len as int),
{
    let n: usize = rope_len(r);
    let start: usize = if at < n { at } else { n };
    let end: usize = if len < n - start { start + len } else { n };
    if start < end {
        rope_remove(r, start, end);
    } else {
        let ghost t = text::rope_text(*r);
        assert(text::removed(t, start as int, start as int) =~= t);
    }
}

/// Applies one operation to a rope.
pub fn apply_op_within(r: &mut ropey::Rope, op: &EditOp)
    ensures
        text::rope_text(*final(r)) == op_applied_within(text::rope_text(*old(r)), op@),
{
    match op {
        EditOp::Insert { at, text } => rope_insert_within(r, *at, text.as_str()),
        EditOp::Delete { at, text } => {
            let len: usize = text.as_str().unicode_len();
            rope_remove_within(r, *at, len)
        },
    }
}

/// Takes one operation back from a rope.
pub fn invert_op_within(r: &mut ropey::Rope, op: &EditOp)
    ensures
        text::rope_text(*final(r)) == op_inverted_within(text::rope_text(*old(r)), op@),
{
    match op {
        EditOp::Insert { at, text } => {
            let len: usize = text.as_str().unicode_len();
            rope_remove_within(r, *at, len)
        },
        EditOp::Delete { at, text } => rope_insert_within(r, *at, text.as_str()),
    }
}

// ---------------------------------------------------------------------
// Groups
// ---------------------------------------------------------------------

/// Ties an edit to a hit of the file search.
#[derive(Clone, Copy, Debug, PartialEq, Eq, Structural)]
pub struct FileSearchMark {
    pub hit_idx: usize,
    /// Applying the edit replaces the hit; taking it back restores it.
    pub forward_marks_replaced: bool,
    /// The edit also went to disk.
    pub disk_write: bool,
}

/// Operations that are undone together.
pub struct EditGroup {
    pub ops: Vec<EditOp>,
    pub cursor_before: Cursor,
    pub cursor_after: Cursor,
    /// Orders the groups of all buffers by age.
    pub seq: u64,
    pub file_search_mark: Option<FileSearchMark>,
    /// Marks the point where the buffer had this content on disk.
    pub save_point_hash: Option<u64>,
}

#[verifier::ext_equal]
pub struct GroupView {
    pub ops: Seq<OpView>,
    pub cursor_before: Cursor,
    pub cursor_after: Cursor,
    pub seq: u64,
    pub file_search_mark: Option<FileSearchMark>,
    pub save_point_hash: Option<u64>,
}

pub open spec fn op_views(s: Seq<EditOp>) -> Seq<OpView> {
    Seq::new(s.len(), |i: int| s[i]@)
}

pub open spec fn group_views(s: Seq<EditGroup>) -> Seq<GroupView> {
    Seq::new(s.len(), |i: int| s[i]@)
}

impl View for EditGroup {
    type V = GroupView;

    open spec fn view(&self) -> GroupView {
        GroupView {
            ops: op_views(self.ops@),
            cursor_before: self.cursor_before,
            cursor_after: self.cursor_after,
            seq: self.seq,
            file_search_mark: self.file_search_mark,
            save_point_hash: self.save_point_hash,
        }
    }
}

pub fn copy_ops(ops: &Vec<EditOp>) -> (v: Vec<EditOp>)
    ensures
        v@ == ops@,
{
    let mut v: Vec<EditOp> = Vec::new();
    let mut i: usize = 0;
    while i < ops.len()
        invariant
            i <= ops.len(),
            v.len() == i,
            forall|j: int| 0 <= j < i ==> v[j] == ops[j],
        decreases ops.len() - i,
    {
        v.push(ops[i].copy());
        i = i + 1;
    }
    assert(v@ =~= ops@);
    v
}

impl EditGroup {
    pub fn copy(&self) -> (g: EditGroup)
        ensures
            g@ == self@,
    {
        EditGroup {
            ops: copy_ops(&self.ops),
            cursor_before: self.cursor_before,
            cursor_after: self.cursor_after,
            seq: self.seq,
            file_search_mark: self.file_search_mark,
            save_point_hash: self.save_point_hash,
        }
    }
}

pub fn copy_groups(groups: &Vec<EditGroup>) -> (v: Vec<EditGroup>)
    ensures
        group_views(v@) == group_views(groups@),
{
    let mut v: Vec<EditGroup> = Vec::new();
    let mut i: usize = 0;
    while i < groups.len()
        invariant
            i <= groups.len(),
            v.len() == i,
            forall|j: int| 0 <= j < i ==> v[j]@ == groups[j]@,
        decreases groups.len() - i,
    {
        v.push(groups[i].copy());
        i = i + 1;
    }
    assert(group_views(v@) =~= group_views(groups@));
    v
}

/// Applies the operations of a group to a rope, first to last.
pub fn apply_group(r: &mut ropey::Rope, g: &EditGroup)
    ensures
        text::rope_text(*final(r)) == ops_applied(
            text::rope_text(*old(r)),
            g@.ops,
            g@.ops.len() as int,
        ),
{
    let ghost t = text::rope_text(*r);
    let n: usize = g.ops.len();
    let mut i: usize = 0;
    while i < n
        invariant
            i <= n,
            n == g.ops.len(),
            text::rope_text(*r) == ops_applied(t, g@.ops, i as int),
        decreases n - i,
    {
        apply_op_within(r, &g.ops[i]);
        i = i + 1;
    }
}

/// Takes the operations of a group back from a rope, last to first.
pub fn invert_group(r: &mut ropey::Rope, g: &EditGroup)
    ensures
        text::rope_text(*final(r)) == ops_inverted(text::rope_text(*old(r)), g@.ops, 0),
{
    let ghost t = text::rope_text(*r);
    let mut i: usize = g.ops.len();
    while i > 0
        invariant
            i <= g.ops.len(),
            text::rope_text(*r) == ops_inverted(t, g@.ops, i as int),
        decreases i,
    {
        i = i - 1;
        invert_op_within(r, &g.ops[i]);
    }
}

// ---------------------------------------------------------------------
// History
// ---------------------------------------------------------------------

/// What can be undone and redone.
pub struct History {
    /// Finished groups, oldest first.
    pub past: Vec<EditGroup>,
    /// The group that typing still adds to.
    pub open: Option<EditGroup>,
    /// Undone groups, the next one to redo last.
    pub future: Vec<EditGroup>,
}

#[verifier::ext_equal]
pub struct HistoryView {
    pub past: Seq<GroupView>,
    pub open: Option<GroupView>,
    pub future: Seq<GroupView>,
}

impl View for History {
    type V = HistoryView;

    open spec fn view(&self) -> HistoryView {
        HistoryView {
            past: group_views(self.past@),
            open: match self.open {
                Some(g) => Some(g@),
                None => None,
            },
            future: group_views(self.future@),
        }
    }
}

pub open spec fn empty_history() -> HistoryView {
    HistoryView { past: seq![], open: None, future: seq![] }
}

/// The number after `n`, or `n` itself at the top.
pub open spec fn bumped(n: u64) -> u64 {
    if n == u64::MAX {
        n
    } else {
        (n + 1) as u64
    }
}

pub fn bump_u64(n: u64) -> (r: u64)
    ensures
        r == bumped(n),
{
    if n == u64::MAX {
        n
    } else {
        n + 1
    }
}

/// The history with its open group finished.
pub open spec fn finalised(h: HistoryView) -> HistoryView {
    match h.open {
        Some(g) => HistoryView { past: h.past.push(g), open: None, ..h },
        None => h,
    }
}

/// The history with one more finished group.
pub open spec fn recorded(
    h: HistoryView,
    seq: u64,
    ops: Seq<OpView>,
    before: Cursor,
    after: Cursor,
    mark: Option<FileSearchMark>,
) -> HistoryView {
    let f = finalised(h);
    HistoryView {
        past: f.past.push(
            GroupView {
                ops,
                cursor_before: before,
                cursor_after: after,
                seq,
                file_search_mark: mark,
                save_point_hash: None,
            },
        ),
        open: None,
        future: seq![],
    }
}

/// The operations that replace one piece of text by another: an empty
/// piece takes none.
pub open spec fn replace_ops(at: int, gone: Seq<char>, put: Seq<char>) -> Seq<OpView> {
    let del = if gone.len() > 0 {
        seq![OpView::Delete { at, text: gone }]
    } else {
        seq![]
    };
    let ins = if put.len() > 0 {
        seq![OpView::Insert { at, text: put }]
    } else {
        seq![]
    };
    del + ins
}

pub open spec fn blank(c: char) -> bool {
    c == ' ' || c == '\t' || c == '\n' || c == '\r'
}

/// Typing `ch` at `at` continues the open group: it stands right behind
/// the last typed character, and does not start the blank after a word.
pub open spec fn continues(g: GroupView, at: int, ch: char) -> bool {
    &&& g.ops.len() == 1
    &&& g.ops[0] matches OpView::Insert { at: from, text } && text.len() > 0 && from + text.len()
        == at && !(blank(ch) && !blank(text[text.len() - 1]))
}

/// The history after one typed character.
pub open spec fn typed(
    h: HistoryView,
    seq: u64,
    at: int,
    ch: char,
    before: Cursor,
    after: Cursor,
) -> HistoryView {
    if h.open is Some && continues(h.open->0, at, ch) {
        let g = h.open->0;
        let from = g.ops[0]->Insert_at;
        let text = g.ops[0]->Insert_text;
        HistoryView {
            open: Some(
                GroupView {
                    ops: seq![OpView::Insert { at: from, text: text.push(ch) }],
                    cursor_after: after,
                    ..g
                },
            ),
            future: seq![],
            ..h
        }
    } else {
        HistoryView {
            past: finalised(h).past,
            open: Some(
                GroupView {
                    ops: seq![OpView::Insert { at, text: seq![ch] }],
                    cursor_before: before,
                    cursor_after: after,
                    seq,
                    file_search_mark: None,
                    save_point_hash: None,
                },
            ),
            future: seq![],
        }
    }
}

/// A marker for the content that is on disk.
pub open spec fn save_marked(h: HistoryView, seq: u64, hash: u64) -> HistoryView {
    let f = finalised(h);
    HistoryView {
        past: f.past.push(
            GroupView {
                ops: seq![],
                cursor_before: Cursor { line: 0, col: 0, preferred_col: 0 },
                cursor_after: Cursor { line: 0, col: 0, preferred_col: 0 },
                seq,
                file_search_mark: None,
                save_point_hash: Some(hash),
            },
        ),
        ..f
    }
}

/// The last index below `n` whose group marks the content `hash`.
pub open spec fn save_point(past: Seq<GroupView>, hash: u64, n: int) -> Option<int>
    decreases n,
{
    if n <= 0 || n > past.len() {
        None
    } else if past[n - 1].save_point_hash == Some(hash) {
        Some(n - 1)
    } else {
        save_point(past, hash, n - 1)
    }
}

/// The newest group below `n` that holds operations.
pub open spec fn last_real(past: Seq<GroupView>, n: int) -> Option<int>
    decreases n,
{
    if n <= 0 || n > past.len() {
        None
    } else if past[n - 1].ops.len() > 0 {
        Some(n - 1)
    } else {
        last_real(past, n - 1)
    }
}

pub proof fn lemma_last_real(past: Seq<GroupView>, n: int)
    requires
        0 <= n <= past.len(),
    ensures
        last_real(past, n) is Some ==> 0 <= last_real(past, n)->0 < n
            && past[last_real(past, n)->0].ops.len() > 0,
    decreases n,
{
    if n > 0 && past[n - 1].ops.len() == 0 {
        lemma_last_real(past, n - 1);
    }
}

/// The history after an undo: everything from group `i` on becomes the
/// future.
pub open spec fn undone(h: HistoryView, i: int) -> HistoryView {
    HistoryView {
        past: h.past.subrange(0, i),
        future: h.future + h.past.subrange(i, h.past.len() as int).reverse(),
        ..h
    }
}

/// The history after a redo: the future from group `i` on becomes the past.
pub open spec fn redone(h: HistoryView, i: int) -> HistoryView {
    HistoryView {
        past: h.past + h.future.subrange(i, h.future.len() as int).reverse(),
        future: h.future.subrange(0, i),
        ..h
    }
}

/// Undoing and then redoing the same groups gives the history back.
pub proof fn redo_reverses_undo(h: HistoryView, i: int)
    requires
        0 <= i <= h.past.len(),
    ensures
        redone(undone(h, i), h.future.len() as int) == h,
{
    let u = undone(h, i);
    let back = u.future.subrange(h.future.len() as int, u.future.len() as int);
    assert(back =~= h.past.subrange(i, h.past.len() as int).reverse());
    assert(back.reverse() =~= h.past.subrange(i, h.past.len() as int));
    assert(redone(u, h.future.len() as int) =~= h);
}

impl History {
    pub fn new() -> (h: History)
        ensures
            h@ == empty_history(),
    {
        let h = History { past: Vec::new(), open: None, future: Vec::new() };
        assert(h@ =~= empty_history());
        h
    }

    /// Closes the group that typing adds to.
    pub fn finalise(&mut self)
        ensures
            final(self)@ == finalised(old(self)@),
    {
        let taken = self.open.take();
        if let Some(g) = taken {
            self.past.push(g);
        }
        assert(self@ =~= finalised(old(self)@));
    }

    /// Records operations as a group of their own.
    pub fn record(
        &mut self,
        seq: u64,
        ops: Vec<EditOp>,
        before: Cursor,
        after: Cursor,
        mark: Option<FileSearchMark>,
    )
        ensures
            final(self)@ == recorded(old(self)@, seq, op_views(ops@), before, after, mark),
    {
        self.finalise();
        self.past.push(
            EditGroup {
                ops,
                cursor_before: before,
                cursor_after: after,
                seq,
                file_search_mark: mark,
                save_point_hash: None,
            },
        );
        self.future = Vec::new();
        assert(self@ =~= recorded(old(self)@, seq, op_views(ops@), before, after, mark));
    }

    /// Records an insertion.
    pub fn record_insert(&mut self, seq: u64, at: usize, text: String, before: Cursor, after: Cursor)
        ensures
            final(self)@ == recorded(
                old(self)@,
                seq,
                seq![OpView::Insert { at: at as int, text: text@ }],
                before,
                after,
                None,
            ),
    {
        let mut ops: Vec<EditOp> = Vec::new();
        ops.push(EditOp::Insert { at, text });
        assert(op_views(ops@) =~= seq![OpView::Insert { at: at as int, text: text@ }]);
        self.record(seq, ops, before, after, None);
    }

    /// Records a deletion.
    pub fn record_delete(&mut self, seq: u64, at: usize, text: String, before: Cursor, after: Cursor)
        ensures
            final(self)@ == recorded(
                old(self)@,
                seq,
                seq![OpView::Delete { at: at as int, text: text@ }],
                before,
                after,
                None,
            ),
    {
        let mut ops: Vec<EditOp> = Vec::new();
        ops.push(EditOp::Delete { at, text });
        assert(op_views(ops@) =~= seq![OpView::Delete { at: at as int, text: text@ }]);
        self.record(seq, ops, before, after, None);
    }

    /// Records the replacement of one piece of text by another.
    pub fn record_replace(
        &mut self,
        seq: u64,
        at: usize,
        gone: String,
        put: String,
        before: Cursor,
        after: Cursor,
        mark: Option<FileSearchMark>,
    )
        ensures
            final(self)@ == recorded(
                old(self)@,
                seq,
                replace_ops(at as int, gone@, put@),
                before,
                after,
                mark,
            ),
    {
        let mut ops: Vec<EditOp> = Vec::new();
        push_replace(&mut ops, at, gone, put);
        assert(op_views(Seq::<EditOp>::empty()) =~= Seq::<OpView>::empty());
        assert(op_views(ops@) =~= replace_ops(at as int, gone@, put@));
        self.record(seq, ops, before, after, mark);
    }

    /// Records one typed character. Characters typed one behind the other
    /// share a group; a blank after a word opens a new one.
    pub fn record_insert_char(&mut self, seq: u64, at: usize, ch: char, before: Cursor, after: Cursor)
        ensures
            final(self)@ == typed(old(self)@, seq, at as int, ch, before, after),
    {
        let taken = self.open.take();
        match taken {
            Some(g) => {
                let joins: bool = group_continues(&g, at, ch);
                if joins {
                    let mut g = g;
                    let ghost was = g@;
                    let op = g.ops.pop().unwrap();
                    match op {
                        EditOp::Insert { at: from, text } => {
                            let mut text = text;
                            assert(was.ops[0] == (OpView::Insert { at: from as int, text: text@ }));
                            text.push(ch);
                            g.ops.push(EditOp::Insert { at: from, text });
                            g.cursor_after = after;
                            assert(op_views(g.ops@) =~= seq![
                                OpView::Insert { at: from as int, text: text@ },
                            ]);
                            self.open = Some(g);
                            self.future = Vec::new();
                            assert(self@ =~= typed(old(self)@, seq, at as int, ch, before, after));
                        },
                        EditOp::Delete { at: from, text } => {
                            assert(was.ops[0] == (OpView::Delete { at: from as int, text: text@ }));
                        },
                    }
                    return;
                }
                self.past.push(g);
                assert(self@.past =~= finalised(old(self)@).past);
            },
            None => {},
        }
        let mut text = String::new();
        text.push(ch);
        assert(text@ =~= seq![ch]);
        let mut ops: Vec<EditOp> = Vec::new();
        ops.push(EditOp::Insert { at, text });
        assert(op_views(ops@) =~= seq![OpView::Insert { at: at as int, text: seq![ch] }]);
        self.open = Some(
            EditGroup {
                ops,
                cursor_before: before,
                cursor_after: after,
                seq,
                file_search_mark: None,
                save_point_hash: None,
            },
        );
        self.future = Vec::new();
        assert(self@ =~= typed(old(self)@, seq, at as int, ch, before, after));
    }

    /// Marks that the content with this hash is what is on disk.
    pub fn insert_save_point(&mut self, seq: u64, hash: u64)
        ensures
            final(self)@ == save_marked(old(self)@, seq, hash),
    {
        self.finalise();
        self.past.push(
            EditGroup {
                ops: Vec::new(),
                cursor_before: Cursor::origin(),
                cursor_after: Cursor::origin(),
                seq,
                file_search_mark: None,
                save_point_hash: Some(hash),
            },
        );
        assert(op_views(Seq::<EditOp>::empty()) =~= Seq::<OpView>::empty());
        assert(self@ =~= save_marked(old(self)@, seq, hash));
    }

    /// The newest marker for the content with this hash.
    pub fn find_save_point(&self, hash: u64) -> (r: Option<usize>)
        ensures
            r is Some <==> save_point(self@.past, hash, self@.past.len() as int) is Some,
            r is Some ==> r->0 == save_point(self@.past, hash, self@.past.len() as int)->0
                && r->0 < self@.past.len(),
    {
        let mut n: usize = self.past.len();
        while n > 0
            invariant
                n <= self.past.len(),
                save_point(self@.past, hash, self@.past.len() as int) == save_point(
                    self@.past,
                    hash,
                    n as int,
                ),
            decreases n,
        {
            assert(self@.past[n - 1] == self.past[n - 1]@);
            match self.past[n - 1].save_point_hash {
                Some(h) => {
                    if h == hash {
                        return Some(n - 1);
                    }
                },
                None => {},
            }
            n = n - 1;
        }
        None
    }

    /// Adds finished groups from elsewhere.
    pub fn restore_past(&mut self, groups: Vec<EditGroup>)
        ensures
            final(self)@ == (HistoryView {
                past: old(self)@.past + group_views(groups@),
                ..old(self)@
            }),
    {
        let ghost added = groups@;
        let mut rest = groups;
        self.past.append(&mut rest);
        assert(self@ =~= HistoryView {
            past: old(self)@.past + group_views(added),
            ..old(self)@
        });
    }

    pub fn past_len(&self) -> (n: usize)
        ensures
            n == self@.past.len(),
    {
        self.past.len()
    }

    /// Moves the newest real group, and the markers on top of it, to the
    /// future, and tells where it now lies there.
    pub fn take_undo(&mut self) -> (r: Option<usize>)
        ensures
            ({
                let f = finalised(old(self)@);
                match last_real(f.past, f.past.len() as int) {
                    Some(i) => {
                        &&& r is Some
                        &&& r->0 + 1 == final(self)@.future.len()
                        &&& final(self)@ == undone(f, i)
                        &&& final(self)@.future[r->0 as int] == f.past[i]
                    },
                    None => r is None && final(self)@ == f,
                }
            }),
    {
        self.finalise();
        let ghost f = self@;
        let mut n: usize = self.past.len();
        while n > 0 && self.past[n - 1].ops.len() == 0
            invariant
                n <= self.past.len(),
                self@ == f,
                last_real(f.past, f.past.len() as int) == last_real(f.past, n as int),
            decreases n,
        {
            assert(f.past[n - 1] == self.past[n - 1]@);
            n = n - 1;
        }
        if n == 0 {
            return None;
        }
        assert(f.past[n - 1] == self.past[n - 1]@);
        let i: usize = n - 1;
        while self.past.len() > i
            invariant
                i <= self.past.len() <= f.past.len(),
                i < f.past.len(),
                self@.open == f.open,
                self@.past == f.past.subrange(0, self.past.len() as int),
                self@.future == f.future + f.past.subrange(
                    self.past.len() as int,
                    f.past.len() as int,
                ).reverse(),
            decreases self.past.len(),
        {
            let ghost k = self.past.len() - 1;
            let ghost before = self@;
            let g = self.past.pop().unwrap();
            self.future.push(g);
            assert(self@.past =~= f.past.subrange(0, k));
            assert(before.past[k] == g@);
            assert(g@ == f.past[k]);
            assert(self@.future =~= before.future.push(g@));
            assert(f.past.subrange(k, f.past.len() as int).reverse() =~= f.past.subrange(
                k + 1,
                f.past.len() as int,
            ).reverse().push(f.past[k]));
            assert(self@.future =~= f.future + f.past.subrange(k, f.past.len() as int).reverse());
        }
        assert(self@ =~= undone(f, i as int));
        Some(self.future.len() - 1)
    }

    /// Moves the next real group of the future, and the markers on top of
    /// it, back to the past, and tells where it now lies there.
    pub fn take_redo(&mut self) -> (r: Option<usize>)
        ensures
            ({
                let f = finalised(old(self)@);
                match last_real(f.future, f.future.len() as int) {
                    Some(i) => {
                        &&& r is Some
                        &&& r->0 + 1 == final(self)@.past.len()
                        &&& final(self)@ == redone(f, i)
                        &&& final(self)@.past[r->0 as int] == f.future[i]
                    },
                    None => r is None && final(self)@ == f,
                }
            }),
    {
        self.finalise();
        let ghost f = self@;
        let mut n: usize = self.future.len();
        while n > 0 && self.future[n - 1].ops.len() == 0
            invariant
                n <= self.future.len(),
                self@ == f,
                last_real(f.future, f.future.len() as int) == last_real(f.future, n as int),
            decreases n,
        {
            assert(f.future[n - 1] == self.future[n - 1]@);
            n = n - 1;
        }
        if n == 0 {
            return None;
        }
        assert(f.future[n - 1] == self.future[n - 1]@);
        let i: usize = n - 1;
        while self.future.len() > i
            invariant
                i <= self.future.len() <= f.future.len(),
                i < f.future.len(),
                self@.open == f.open,
                self@.future == f.future.subrange(0, self.future.len() as int),
                self@.past == f.past + f.future.subrange(
                    self.future.len() as int,
                    f.future.len() as int,
                ).reverse(),
            decreases self.future.len(),
        {
            let ghost k = self.future.len() - 1;
            let ghost before = self@;
            let g = self.future.pop().unwrap();
            self.past.push(g);
            assert(self@.future =~= f.future.subrange(0, k));
            assert(before.future[k] == g@);
            assert(g@ == f.future[k]);
            assert(self@.past =~= before.past.push(g@));
            assert(f.future.subrange(k, f.future.len() as int).reverse() =~= f.future.subrange(
                k + 1,
                f.future.len() as int,
            ).reverse().push(f.future[k]));
            assert(self@.past =~= f.past + f.future.subrange(k, f.future.len() as int).reverse());
        }
        assert(self@ =~= redone(f, i as int));
        Some(self.past.len() - 1)
    }
}

/// Adds the operations that replace one piece of text by another.
pub fn push_replace(ops: &mut Vec<EditOp>, at: usize, gone: String, put: String)
    ensures
        op_views(final(ops)@) == op_views(old(ops)@) + replace_ops(at as int, gone@, put@),
{
    let g: usize = gone.as_str().unicode_len();
    let p: usize = put.as_str().unicode_len();
    if g > 0 {
        ops.push(EditOp::Delete { at, text: gone });
    }
    if p > 0 {
        ops.push(EditOp::Insert { at, text: put });
    }
    assert(op_views(ops@) =~= op_views(old(ops)@) + replace_ops(at as int, gone@, put@));
}

fn is_blank(c: char) -> (r: bool)
    ensures
        r == blank(c),
{
    c == ' ' || c == '\t' || c == '\n' || c == '\r'
}

fn group_continues(g: &EditGroup, at: usize, ch: char) -> (r: bool)
    ensures
        r == continues(g@, at as int, ch),
{
    if g.ops.len() != 1 {
        return false;
    }
    assert(g@.ops[0] == g.ops[0]@);
    match &g.ops[0] {
        EditOp::Insert { at: from, text } => {
            let n: usize = text.as_str().unicode_len();
            if n == 0 || *from > at || at - *from != n {
                return false;
            }
            let last = text.as_str().get_char(n - 1);
            !(is_blank(ch) && !is_blank(last))
        },
        EditOp::Delete { .. } => false,
    }
}

// ---------------------------------------------------------------------
// Buffers
// ---------------------------------------------------------------------

/// One step of the content hash.
pub open spec fn hash_step(h: u64, c: char) -> u64 {
    (h ^ (c as u64)).wrapping_mul(0x100000001b3u64)
}

/// The hash of the first `n` characters.
pub open spec fn hash_upto(t: Seq<char>, n: int) -> u64
    decreases n,
{
    if n <= 0 || n > t.len() {
        0xcbf29ce484222325
    } else {
        hash_step(hash_upto(t, n - 1), t[n - 1])
    }
}

/// The hash of a text.
pub open spec fn content_hash(t: Seq<char>) -> u64 {
    hash_upto(t, t.len() as int)
}

/// Hashes the text of a rope.
pub fn hash_rope(r: &ropey::Rope) -> (h: u64)
    ensures
        h == content_hash(text::rope_text(*r)),
{
    let n: usize = rope_len(r);
    let mut h: u64 = 0xcbf29ce484222325;
    let mut i: usize = 0;
    while i < n
        invariant
            i <= n,
            n == text::rope_text(*r).len(),
            h == hash_upto(text::rope_text(*r), i as int),
        decreases n - i,
    {
        let c: u64 = rope_char(r, i) as u64;
        let x: u64 = h ^ c;
        h = x.wrapping_mul(0x100000001b3);
        i = i + 1;
    }
    h
}

/// A loaded buffer.
pub struct EditedBuffer {
    pub rope: ropey::Rope,
    pub version: u64,
    pub saved_version: u64,
    pub history: History,
    /// The hash of what is on disk.
    pub disk_content_hash: u64,
}

#[verifier::ext_equal]
pub struct BufferView {
    pub text: Seq<char>,
    pub version: u64,
    pub saved_version: u64,
    pub history: HistoryView,
    pub disk_content_hash: u64,
}

impl View for EditedBuffer {
    type V = BufferView;

    open spec fn view(&self) -> BufferView {
        BufferView {
            text: text::rope_text(self.rope),
            version: self.version,
            saved_version: self.saved_version,
            history: self.history@,
            disk_content_hash: self.disk_content_hash,
        }
    }
}

/// A buffer that was just loaded.
pub open spec fn fresh_buffer(t: Seq<char>) -> BufferView {
    BufferView {
        text: t,
        version: 0,
        saved_version: 0,
        history: empty_history(),
        disk_content_hash: content_hash(t),
    }
}

/// A buffer with a new text: its version moves on.
pub open spec fn retexted(b: BufferView, t: Seq<char>) -> BufferView {
    BufferView { text: t, version: bumped(b.version), ..b }
}

/// The buffer has changes that were not saved.
pub open spec fn is_dirty(b: BufferView) -> bool {
    b.version > b.saved_version
}

impl EditedBuffer {
    pub fn fresh(rope: ropey::Rope) -> (b: EditedBuffer)
        ensures
            b@ == fresh_buffer(text::rope_text(rope)),
    {
        let hash: u64 = hash_rope(&rope);
        EditedBuffer {
            rope,
            version: 0,
            saved_version: 0,
            history: History::new(),
            disk_content_hash: hash,
        }
    }

    pub fn dirty(&self) -> (r: bool)
        ensures
            r == is_dirty(self@),
    {
        self.version > self.saved_version
    }
}

/// Gives a buffer a new text and moves its version on. The saved version
/// stays, so the buffer becomes dirty.
pub fn bump(eb: &mut EditedBuffer, rope: ropey::Rope)
    ensures
        final(eb)@ == retexted(old(eb)@, text::rope_text(rope)),
        final(eb).history == old(eb).history,
{
    eb.rope = rope;
    eb.version = bump_u64(eb.version);
}

// ---------------------------------------------------------------------
// Laws
// ---------------------------------------------------------------------

/// Typing goes on with the open run where it ended, but not from a word to
/// the blank behind it; anything else starts a run of its own, and the one
/// before is kept as it is.
pub proof fn runs_of_typing_are_words(
    h: HistoryView,
    seq: u64,
    at: int,
    ch: char,
    before: Cursor,
    after: Cursor,
    from: int,
    run: Seq<char>,
)
    requires
        h.open matches Some(g) && g.ops == seq![OpView::Insert { at: from, text: run }],
        run.len() > 0,
    ensures
        ({
            let r = typed(h, seq, at, ch, before, after);
            let white = |c: char| c == ' ' || c == '\t' || c == '\n' || c == '\r';
            let joins = at == from + run.len() && (white(ch) ==> white(run.last()));
            &&& r.open is Some
            &&& r.future.len() == 0
            &&& r.open->0.cursor_after == after
            &&& joins ==> {
                &&& r.past == h.past
                &&& r.open->0.ops == seq![OpView::Insert { at: from, text: run.push(ch) }]
                &&& r.open->0.cursor_before == h.open->0.cursor_before
                &&& r.open->0.seq == h.open->0.seq
            }
            &&& !joins ==> {
                &&& r.past == h.past.push(h.open->0)
                &&& r.open->0.ops == seq![OpView::Insert { at, text: seq![ch] }]
                &&& r.open->0.cursor_before == before
                &&& r.open->0.seq == seq
            }
        }),
{
    let g = h.open->0;
    assert(g.ops[0] == OpView::Insert { at: from, text: run });
    assert(g.ops.len() == 1);
}

/// Without an open run typing starts one.
pub proof fn typing_starts_a_run(h: HistoryView, seq: u64, at: int, ch: char, before: Cursor, after: Cursor)
    requires
        h.open is None,
    ensures
        ({
            let r = typed(h, seq, at, ch, before, after);
            &&& r.past == h.past
            &&& r.future.len() == 0
            &&& r.open is Some
            &&& r.open->0.ops == seq![OpView::Insert { at, text: seq![ch] }]
            &&& r.open->0.cursor_before == before
            &&& r.open->0.cursor_after == after
            &&& r.open->0.seq == seq
        }),
{
}

/// A new edit ends what could be redone and comes last in the history; the
/// run that was open before is kept.
pub proof fn recording_adds_a_group(
    h: HistoryView,
    seq: u64,
    ops: Seq<OpView>,
    before: Cursor,
    after: Cursor,
    mark: Option<FileSearchMark>,
)
    ensures
        ({
            let r = recorded(h, seq, ops, before, after, mark);
            let n = h.past.len() as int;
            &&& r.open is None
            &&& r.future.len() == 0
            &&& r.past.last().ops == ops
            &&& r.past.last().cursor_before == before
            &&& r.past.last().cursor_after == after
            &&& r.past.last().seq == seq
            &&& r.past.last().file_search_mark == mark
            &&& h.open is None ==> r.past.len() == n + 1
            &&& h.open is Some ==> r.past.len() == n + 2 && r.past[n] == h.open->0
            &&& r.past.subrange(0, n) == h.past
        }),
{
    let n = h.past.len() as int;
    assert(recorded(h, seq, ops, before, after, mark).past.subrange(0, n) =~= h.past);
}

} // verus!
