//! Replacing one hit of the file search, and taking that back.

use vstd::prelude::*;

use crate::buffers::{BufferEdits, EditsView, PendingSingleReplace, SingleReplaceView};
use crate::chars;
use crate::columns::Cursor;
use crate::edits;
use crate::edits::{bump, bump_u64, hash_rope, BufferView, EditedBuffer, FileSearchMark};
use crate::hits;
use crate::hits::{
    capped_add, make_entry, EntryView, FileSearchHit, FileSearchSelection, FileSearchState, HitView,
    ReplaceEntry, SearchView,
};
use crate::seqs;
use crate::tabs::{TabView, Tabs, TabsView};
use crate::text;
use crate::text::{
    rope_clone, rope_insert, rope_len, rope_len_lines, rope_line_to_char, rope_remove,
};
use crate::truth;
use crate::undo;

verus! {

// ---------------------------------------------------------------------
// What is left to replace
// ---------------------------------------------------------------------

/// The state with a place for the replacement of every hit.
pub open spec fn sized(s: SearchView) -> SearchView {
    if s.hit_replacements.len() == s.flat_hits.len() {
        s
    } else {
        SearchView {
            hit_replacements: Seq::new(s.flat_hits.len(), |i: int| None::<EntryView>),
            ..s
        }
    }
}

pub fn ensure_replacements_len(state: &mut FileSearchState)
    ensures
        final(state)@ == sized(old(state)@),
{
    let n: usize = state.flat_hits.len();
    if state.hit_replacements.len() != n {
        let mut v: Vec<Option<ReplaceEntry>> = Vec::new();
        while v.len() < n
            invariant
                v.len() <= n,
                forall|i: int| 0 <= i < v.len() ==> v[i] is None,
            decreases n - v.len(),
        {
            v.push(None);
        }
        state.hit_replacements = v;
        assert(state@ =~= sized(old(state)@));
    }
}

/// Hit `i` was not replaced.
pub open spec fn pending(r: Seq<Option<EntryView>>, i: int) -> bool {
    i >= r.len() || r[i] is None
}

/// The first hit that was not replaced, `k` or more steps behind hit `c`
/// on the way round through all `n`.
pub open spec fn pending_from(r: Seq<Option<EntryView>>, n: int, c: int, k: int) -> Option<int>
    decreases n - k + 1,
{
    if k > n {
        None
    } else if pending(r, (c + k) % n) {
        Some((c + k) % n)
    } else {
        pending_from(r, n, c, k + 1)
    }
}

/// The state with the next hit selected that was not replaced.
pub open spec fn advanced(s: SearchView) -> SearchView {
    let n = s.flat_hits.len() as int;
    match s.selection {
        FileSearchSelection::Result(i) => if n == 0 {
            s
        } else {
            match pending_from(s.hit_replacements, n, i as int, 1) {
                Some(j) => SearchView { selection: FileSearchSelection::Result(j as usize), ..s },
                None => s,
            }
        },
        _ => s,
    }
}

proof fn lemma_wrap(c: int, k: int, n: int)
    requires
        0 <= c,
        0 < k <= n,
    ensures
        0 <= (c + k) % n < n,
        (c + k) % n == if c % n + k < n {
            c % n + k
        } else {
            c % n + k - n
        },
{
    let m = c % n;
    assert(0 <= m < n) by (nonlinear_arith)
        requires
            m == c % n,
            n > 0,
    ;
    vstd::arithmetic::div_mod::lemma_add_mod_noop(c, k, n);
    vstd::arithmetic::div_mod::lemma_add_mod_noop(m, k, n);
    vstd::arithmetic::div_mod::lemma_small_mod(m as nat, n as nat);
    assert((c + k) % n == (m + k) % n);
    if m + k < n {
        vstd::arithmetic::div_mod::lemma_small_mod((m + k) as nat, n as nat);
    } else {
        vstd::arithmetic::div_mod::lemma_mod_add_multiples_vanish(m + k - n, n);
        vstd::arithmetic::div_mod::lemma_small_mod((m + k - n) as nat, n as nat);
    }
}

/// Advancing lands on a hit that was not replaced, if there is one.
pub proof fn advancing_finds_a_pending_hit(s: SearchView, j: int)
    requires
        s.selection is Result,
        0 <= j < s.flat_hits.len() <= usize::MAX,
        pending(s.hit_replacements, j),
    ensures
        ({
            let a = advanced(s).selection;
            &&& a is Result
            &&& a->0 < s.flat_hits.len()
            &&& pending(s.hit_replacements, a->0 as int)
        }),
{
    let n = s.flat_hits.len() as int;
    let c = s.selection->0 as int;
    let m = c % n;
    assert(0 <= m < n) by (nonlinear_arith)
        requires
            m == c % n,
            n > 0,
    ;
    let k = if j > m {
        j - m
    } else {
        j - m + n
    };
    lemma_wrap(c, k, n);
    lemma_pending_from(s.hit_replacements, n, c, 1, k);
}

proof fn lemma_pending_from(r: Seq<Option<EntryView>>, n: int, c: int, k: int, w: int)
    requires
        0 < k <= w <= n,
        0 <= c,
        pending(r, (c + w) % n),
    ensures
        pending_from(r, n, c, k) matches Some(j) && 0 <= j < n && pending(r, j),
    decreases n - k,
{
    lemma_wrap(c, k, n);
    if !pending(r, (c + k) % n) {
        lemma_pending_from(r, n, c, k + 1, w);
    }
}

/// Selects the next hit that was not replaced; stays if all were.
pub fn advance_to_next_pending(state: &mut FileSearchState)
    ensures
        final(state)@ == advanced(old(state)@),
{
    let c: usize = match state.selection {
        FileSearchSelection::Result(i) => i,
        _ => {
            return;
        },
    };
    let n: usize = state.flat_hits.len();
    if n == 0 {
        return;
    }
    let ghost r = state@.hit_replacements;
    let m: usize = c % n;
    let mut k: usize = 1;
    loop
        invariant
            0 < k <= n,
            n == state.flat_hits.len(),
            m == c % n,
            m < n,
            state@ == old(state)@,
            state@.selection == FileSearchSelection::Result(c),
            r == state@.hit_replacements,
            pending_from(r, n as int, c as int, 1) == pending_from(r, n as int, c as int, k as int),
        decreases n - k,
    {
        proof {
            lemma_wrap(c as int, k as int, n as int);
        }
        let d: usize = if k < n - m {
            m + k
        } else {
            k - (n - m)
        };
        let open: bool = d >= state.hit_replacements.len() || state.hit_replacements[d].is_none();
        assert(open == pending(r, d as int));
        if open {
            state.selection = FileSearchSelection::Result(d);
            return;
        }
        if k == n {
            assert(pending_from(r, n as int, c as int, n + 1) is None);
            return;
        }
        k = k + 1;
    }
}

// ---------------------------------------------------------------------
// Changing a buffer
// ---------------------------------------------------------------------

pub open spec fn lasting(path: Seq<char>) -> spec_fn(TabView) -> bool {
    |t: TabView| t.path == path && !t.preview
}

/// A file that the user has open in a lasting tab. Its buffer gets dirty
/// by a replacement; that of any other is written at once.
pub open spec fn owned(t: TabsView, e: EditsView, path: Seq<char>) -> bool {
    e.has(path) && seqs::first_index(t.open, lasting(path)) is Some
}

pub fn is_owned(tabs: &Tabs, edits: &BufferEdits, path: &str) -> (r: bool)
    ensures
        r == owned(tabs@, edits@, path@),
{
    if !edits.has(path) {
        return false;
    }
    let n: usize = tabs.len();
    let mut i: usize = 0;
    while i < n
        invariant
            i <= n,
            n == tabs@.open.len(),
            edits@.has(path@),
            forall|j: int| 0 <= j < i ==> !lasting(path@)(#[trigger] tabs@.open[j]),
        decreases n - i,
    {
        let t = tabs.at(i);
        if !t.preview && chars::same_text(t.path.as_str(), path) {
            proof {
                seqs::lemma_first_is(tabs@.open, lasting(path@), 0, i as int);
            }
            return true;
        }
        i = i + 1;
    }
    proof {
        seqs::lemma_first_none(tabs@.open, lasting(path@), 0);
    }
    false
}

/// Where a hit stands in the text of its buffer, if the text still reaches
/// so far.
pub open spec fn hit_place(t: Seq<char>, hit: HitView) -> Option<int> {
    if hit.line0() >= text::line_count(t) {
        None
    } else {
        let at = text::line_start(t, hit.line0()) + hit.col0();
        if at + hit.matched().len() > t.len() {
            None
        } else {
            Some(at)
        }
    }
}

fn find_hit_place(rope: &ropey::Rope, hit: &FileSearchHit, len: usize) -> (r: Option<usize>)
    requires
        len == hit@.matched().len(),
    ensures
        match r {
            Some(at) => hit_place(text::rope_text(*rope), hit@) == Some(at as int) && at + len
                <= text::rope_text(*rope).len(),
            None => hit_place(text::rope_text(*rope), hit@) is None,
        },
{
    let line: usize = hit.line0();
    if line >= rope_len_lines(rope) {
        return None;
    }
    proof {
        text::lemma_line_start(text::rope_text(*rope), line as int);
    }
    let start: usize = rope_line_to_char(rope, line);
    let room: usize = rope_len(rope) - start;
    let col: usize = hit.col0();
    if col > room || len > room - col {
        return None;
    }
    Some(start + col)
}

pub open spec fn anchor(hit: HitView) -> Cursor {
    Cursor {
        line: hit.line0() as usize,
        col: hit.col0() as usize,
        preferred_col: hit.col0() as usize,
    }
}

fn anchor_of(hit: &FileSearchHit) -> (c: Cursor)
    ensures
        c == anchor(hit@),
{
    Cursor { line: hit.line0(), col: hit.col0(), preferred_col: hit.col0() }
}

/// A text with `len` characters at `at` replaced.
pub open spec fn spliced(t: Seq<char>, at: int, len: int, put: Seq<char>) -> Seq<char> {
    text::inserted(text::removed(t, at, at + len), at, put)
}

/// A buffer with `len` characters at `at` replaced, and that recorded as
/// the replacement of `gone`.
pub open spec fn swapped(
    b: BufferView,
    clock: u64,
    at: int,
    len: int,
    gone: Seq<char>,
    put: Seq<char>,
    hit: HitView,
    mark: FileSearchMark,
) -> BufferView {
    BufferView {
        history: edits::recorded(
            b.history,
            edits::bumped(clock),
            edits::replace_ops(at, gone, put),
            anchor(hit),
            anchor(hit),
            Some(mark),
        ),
        ..edits::retexted(b, spliced(b.text, at, len, put))
    }
}

/// A buffer whose text is on disk.
pub open spec fn settled(b: BufferView) -> BufferView {
    BufferView {
        saved_version: b.version,
        disk_content_hash: edits::content_hash(b.text),
        ..b
    }
}

/// Takes the text of a buffer for that on disk.
pub fn settle(eb: &mut EditedBuffer)
    ensures
        final(eb)@ == settled(old(eb)@),
        final(eb).history == old(eb).history,
{
    eb.saved_version = eb.version;
    eb.disk_content_hash = hash_rope(&eb.rope);
}

fn swap_text(
    eb: &mut EditedBuffer,
    clock: u64,
    at: usize,
    len: usize,
    gone: String,
    put: String,
    hit: &FileSearchHit,
    mark: FileSearchMark,
)
    requires
        at + len <= old(eb)@.text.len(),
    ensures
        final(eb)@ == swapped(
            old(eb)@,
            clock,
            at as int,
            len as int,
            gone@,
            put@,
            hit@,
            mark,
        ),
{
    let mut rope = rope_clone(&eb.rope);
    let ghost t0 = eb@.text;
    let n: usize = rope_len(&rope);
    assert(at + len <= n);
    if len > 0 {
        rope_remove(&mut rope, at, at + len);
    } else {
        assert(text::removed(t0, at as int, at as int) =~= t0);
    }
    let ghost t1 = text::rope_text(rope);
    if put.as_str().unicode_len() > 0 {
        rope_insert(&mut rope, at, put.as_str());
    } else {
        assert(text::inserted(t1, at as int, put@) =~= t1);
    }
    bump(eb, rope);
    let seq: u64 = bump_u64(clock);
    let c = anchor_of(hit);
    eb.history.record_replace(seq, at, gone, put, c, c, Some(mark));
}

/// The edits with one more replacement to be written to disk.
pub open spec fn pushed(e: EditsView, p: SingleReplaceView) -> EditsView {
    EditsView { pending_single_replace: e.pending_single_replace.push(p), ..e }
}

/// A change of a loaded buffer. One that the user does not own is written
/// to disk as well.
pub open spec fn changed(
    e: EditsView,
    path: Seq<char>,
    own: bool,
    b: BufferView,
    p: SingleReplaceView,
) -> EditsView {
    let clock = edits::bumped(e.clock);
    if own {
        e.with_buffer(path, b, clock)
    } else {
        pushed(e.with_buffer(path, settled(b), clock), p)
    }
}

// ---------------------------------------------------------------------
// Replacing
// ---------------------------------------------------------------------

/// The request to write the replacement of a hit.
pub open spec fn forward_request(hit: HitView, put: Seq<char>) -> SingleReplaceView {
    SingleReplaceView {
        path: hit.path,
        line: hit.line as int,
        match_start: hit.match_start as int,
        match_end: hit.match_end as int,
        original: hit.matched(),
        replacement: put,
    }
}

/// The request to write the original of a hit again.
pub open spec fn backward_request(en: EntryView) -> SingleReplaceView {
    SingleReplaceView {
        path: en.path,
        line: en.hit.line as int,
        match_start: en.hit.match_start as int,
        match_end: hits::capped(
            en.hit.match_start as int,
            vstd::utf8::encode_utf8(en.replacement_text).len() as usize as int,
        ),
        original: en.replacement_text,
        replacement: en.hit.matched(),
    }
}

/// The state with hit `i` replaced and the next one selected.
pub open spec fn with_entry(s: SearchView, i: int, en: Option<EntryView>) -> SearchView {
    SearchView { hit_replacements: s.hit_replacements.update(i, en), ..s }
}

/// What replacing the selected hit does.
pub open spec fn replaced(s: SearchView, t: TabsView, e: EditsView) -> (SearchView, EditsView) {
    match s.selection {
        FileSearchSelection::Result(idx) => if idx >= s.flat_hits.len() {
            (s, e)
        } else {
            let i = idx as int;
            let hit = s.flat_hits[i];
            let r = sized(s);
            let put = s.replace.text();
            if r.hit_replacements[i] is Some {
                (advanced(r), e)
            } else if s.query.text().len() == 0 && put.len() == 0 {
                (r, e)
            } else if hit.matched().len() == 0 {
                (r, e)
            } else if e.has(hit.path) {
                let b = e.buffers[hit.path];
                let own = owned(t, e, hit.path);
                match hit_place(b.text, hit) {
                    None => (r, e),
                    Some(at) => (
                        advanced(with_entry(r, i, Some(hits::entry_of(hit, put, at)))),
                        changed(
                            e,
                            hit.path,
                            own,
                            swapped(
                                b,
                                e.clock,
                                at,
                                hit.matched().len() as int,
                                hit.matched(),
                                put,
                                hit,
                                FileSearchMark {
                                    hit_idx: idx,
                                    forward_marks_replaced: true,
                                    disk_write: !own,
                                },
                            ),
                            forward_request(hit, put),
                        ),
                    ),
                }
            } else {
                (
                    advanced(with_entry(r, i, Some(hits::entry_of(hit, put, 0)))),
                    pushed(e, forward_request(hit, put)),
                )
            }
        },
        _ => (s, e),
    }
}

/// The selected hit still stands where it was found, if its file is loaded
/// and reaches so far.
pub open spec fn hit_stands(s: SearchView, e: EditsView) -> bool {
    match s.selection {
        FileSearchSelection::Result(idx) => idx < s.flat_hits.len() ==> {
            let hit = s.flat_hits[idx as int];
            let t = e.buffers[hit.path].text;
            e.has(hit.path) && hit_place(t, hit) is Some ==> t.subrange(
                hit_place(t, hit)->0,
                hit_place(t, hit)->0 + hit.matched().len(),
            ) == hit.matched()
        },
        _ => true,
    }
}

fn make_request(
    hit: &FileSearchHit,
    match_end: usize,
    original: String,
    replacement: String,
) -> (p: PendingSingleReplace)
    ensures
        p@ == (SingleReplaceView {
            path: hit@.path,
            line: hit@.line as int,
            match_start: hit@.match_start as int,
            match_end: match_end as int,
            original: original@,
            replacement: replacement@,
        }),
{
    PendingSingleReplace {
        path: hit.path.copy(),
        line: hit.line,
        match_start: hit.match_start,
        match_end,
        original,
        replacement,
    }
}

fn set_entry(state: &mut FileSearchState, i: usize, en: Option<ReplaceEntry>)
    requires
        i < old(state)@.hit_replacements.len(),
    ensures
        final(state)@ == with_entry(old(state)@, i as int, hits::opt_entry(en)),
{
    state.hit_replacements.set(i, en);
    assert(state@ =~= with_entry(old(state)@, i as int, hits::opt_entry(en)));
}

/// Replaces the selected hit, unless it was replaced already, and selects
/// the next one that was not.
pub fn replace_selected(state: &mut FileSearchState, tabs: &Tabs, edits: &mut BufferEdits)
    ensures
        (final(state)@, final(edits)@) == replaced(old(state)@, tabs@, old(edits)@),
        hit_stands(old(state)@, old(edits)@) && truth::all_truthful(old(edits)@)
            ==> truth::all_truthful(final(edits)@),
{
    let idx: usize = match state.selection {
        FileSearchSelection::Result(i) => i,
        _ => {
            return;
        },
    };
    if idx >= state.flat_hits.len() {
        return;
    }
    let ghost s0 = state@;
    let ghost e0 = edits@;
    let hit = state.flat_hits[idx].copy();
    assert(hit@ == s0.flat_hits[idx as int]);
    ensure_replacements_len(state);
    assert(state@.hit_replacements.len() == s0.flat_hits.len());
    assert(s0.flat_hits.len() == old(state).flat_hits.len());
    assert(state@.hit_replacements[idx as int] == hits::opt_entry(
        state.hit_replacements[idx as int],
    ));
    if state.hit_replacements[idx].is_some() {
        advance_to_next_pending(state);
        return;
    }
    if state.query.is_empty() && state.replace.is_empty() {
        return;
    }
    let gone = hit.matched();
    let len: usize = gone.as_str().unicode_len();
    if len == 0 {
        return;
    }
    let put = state.replace.text();
    let own: bool = is_owned(tabs, edits, hit.path.as_str());
    let path = hit.path.text.clone();
    match edits.take(path.as_str()) {
        Some(eb) => {
            let mut eb = eb;
            let at: usize = match find_hit_place(&eb.rope, &hit, len) {
                Some(at) => at,
                None => {
                    let ghost b = eb@;
                    edits.put(path, eb);
                    proof {
                        crate::buffers::lemma_take_put(e0, hit@.path, b, e0.clock);
                    }
                    return;
                },
            };
            let mark = FileSearchMark {
                hit_idx: idx,
                forward_marks_replaced: true,
                disk_write: !own,
            };
            let clock: u64 = edits.clock;
            swap_text(&mut eb, clock, at, len, gone.clone(), put.clone(), &hit, mark);
            if !own {
                settle(&mut eb);
            }
            edits.clock = bump_u64(clock);
            let ghost b = eb@;
            edits.put(path, eb);
            proof {
                crate::buffers::lemma_take_put(e0, hit@.path, b, edits::bumped(clock));
                assert(edits@ =~= e0.with_buffer(hit@.path, b, edits::bumped(clock)));
                if hit_stands(s0, e0) && truth::all_truthful(e0) {
                    lemma_swap_true(
                        e0,
                        hit@.path,
                        own,
                        at as int,
                        len as int,
                        gone@,
                        put@,
                        hit@,
                        mark,
                    );
                }
            }
            let ghost e2 = edits@;
            if !own {
                edits.push_single(make_request(&hit, hit.match_end, gone, put.clone()));
            }
            proof {
                truth::lemma_same_buffers(e2, edits@);
            }
            set_entry(state, idx, Some(make_entry(&hit, put, at)));
        },
        None => {
            proof {
                assert(edits@ =~= e0);
            }
            edits.push_single(make_request(&hit, hit.match_end, gone, put.clone()));
            proof {
                truth::lemma_same_buffers(e0, edits@);
            }
            set_entry(state, idx, Some(make_entry(&hit, put, 0)));
        },
    }
    advance_to_next_pending(state);
}

// ---------------------------------------------------------------------
// Taking a replacement back
// ---------------------------------------------------------------------

/// What taking back the replacement of the selected hit does.
pub open spec fn unreplaced(s: SearchView, t: TabsView, e: EditsView) -> (SearchView, EditsView) {
    match s.selection {
        FileSearchSelection::Result(idx) => {
            let i = idx as int;
            let r = sized(s);
            if i >= r.hit_replacements.len() {
                (r, e)
            } else {
                match r.hit_replacements[i] {
                    None => (r, e),
                    Some(en) => if e.has(en.path) {
                        let b = e.buffers[en.path];
                        let own = owned(t, e, en.path);
                        let at = en.rope_char_start as int;
                        let len = en.replacement_char_len as int;
                        if at + len > b.text.len() {
                            (r, e)
                        } else {
                            (
                                with_entry(r, i, None),
                                changed(
                                    e,
                                    en.path,
                                    own,
                                    swapped(
                                        b,
                                        e.clock,
                                        at,
                                        len,
                                        en.replacement_text,
                                        en.hit.matched(),
                                        en.hit,
                                        FileSearchMark {
                                            hit_idx: idx,
                                            forward_marks_replaced: false,
                                            disk_write: !own,
                                        },
                                    ),
                                    backward_request(en),
                                ),
                            )
                        }
                    } else {
                        (with_entry(r, i, None), pushed(e, backward_request(en)))
                    },
                }
            }
        },
        _ => (s, e),
    }
}

/// The replacement of the selected hit still stands where it was made, if
/// the file is loaded and reaches so far.
pub open spec fn replacement_stands(s: SearchView, e: EditsView) -> bool {
    let r = sized(s);
    match s.selection {
        FileSearchSelection::Result(idx) => idx < r.hit_replacements.len()
            && r.hit_replacements[idx as int] is Some ==> {
            let en = r.hit_replacements[idx as int]->0;
            let t = e.buffers[en.path].text;
            let at = en.rope_char_start as int;
            let len = en.replacement_char_len as int;
            e.has(en.path) && at + len <= t.len() ==> t.subrange(at, at + len)
                == en.replacement_text
        },
        _ => true,
    }
}

/// A replacement of what truly stands in a buffer keeps all histories true.
proof fn lemma_swap_true(
    e: EditsView,
    path: Seq<char>,
    own: bool,
    at: int,
    len: int,
    gone: Seq<char>,
    put: Seq<char>,
    hit: HitView,
    mark: FileSearchMark,
)
    requires
        e.has(path),
        truth::all_truthful(e),
        0 <= at,
        0 <= len,
        at + len <= e.buffers[path].text.len(),
        e.buffers[path].text.subrange(at, at + len) == gone,
    ensures
        ({
            let b = swapped(e.buffers[path], e.clock, at, len, gone, put, hit, mark);
            let b2 = if own {
                b
            } else {
                settled(b)
            };
            truth::all_truthful(e.with_buffer(path, b2, edits::bumped(e.clock)))
        }),
{
    let b0 = e.buffers[path];
    assert(e.has(path));
    assert(truth::truthful(b0));
    let b = swapped(b0, e.clock, at, len, gone, put, hit, mark);
    truth::lemma_replacement(
        b0.history,
        b0.text,
        edits::bumped(e.clock),
        at,
        len,
        put,
        anchor(hit),
        anchor(hit),
        Some(mark),
    );
    let b2 = if own {
        b
    } else {
        settled(b)
    };
    truth::lemma_put(e, path, b2, edits::bumped(e.clock));
}

fn backward(en: &ReplaceEntry, original: String) -> (p: PendingSingleReplace)
    requires
        original@ == en@.hit.matched(),
    ensures
        p@ == backward_request(en@),
{
    let end: usize = capped_add(en.hit.match_start, en.replacement_text.as_str().len());
    PendingSingleReplace {
        path: en.path.copy(),
        line: en.hit.line,
        match_start: en.hit.match_start,
        match_end: end,
        original: en.replacement_text.clone(),
        replacement: original,
    }
}

/// Takes back the replacement of the selected hit. The selection stays.
pub fn unreplace_selected(state: &mut FileSearchState, tabs: &Tabs, edits: &mut BufferEdits)
    ensures
        (final(state)@, final(edits)@) == unreplaced(old(state)@, tabs@, old(edits)@),
        replacement_stands(old(state)@, old(edits)@) && truth::all_truthful(old(edits)@)
            ==> truth::all_truthful(final(edits)@),
{
    let idx: usize = match state.selection {
        FileSearchSelection::Result(i) => i,
        _ => {
            return;
        },
    };
    ensure_replacements_len(state);
    if idx >= state.hit_replacements.len() {
        return;
    }
    let ghost r0 = state@;
    let ghost e0 = edits@;
    assert(r0.hit_replacements[idx as int] == hits::opt_entry(
        state.hit_replacements[idx as int],
    ));
    let mut slot: Option<ReplaceEntry> = None;
    std::mem::swap(&mut slot, &mut state.hit_replacements[idx]);
    assert(state@ =~= with_entry(r0, idx as int, None));
    let en = match slot {
        None => {
            assert(state@ =~= r0);
            return;
        },
        Some(en) => en,
    };
    let original = en.hit.matched();
    let own: bool = is_owned(tabs, edits, en.path.as_str());
    let path = en.path.text.clone();
    match edits.take(path.as_str()) {
        Some(eb) => {
            let mut eb = eb;
            let n: usize = rope_len(&eb.rope);
            let at: usize = en.rope_char_start;
            let len: usize = en.replacement_char_len;
            if at > n || len > n - at {
                let ghost b = eb@;
                edits.put(path, eb);
                proof {
                    crate::buffers::lemma_take_put(e0, en@.path, b, e0.clock);
                }
                set_entry(state, idx, Some(en));
                assert(state@ =~= r0);
                return;
            }
            let mark = FileSearchMark {
                hit_idx: idx,
                forward_marks_replaced: false,
                disk_write: !own,
            };
            let clock: u64 = edits.clock;
            swap_text(
                &mut eb,
                clock,
                at,
                len,
                en.replacement_text.clone(),
                original.clone(),
                &en.hit,
                mark,
            );
            if !own {
                settle(&mut eb);
            }
            edits.clock = bump_u64(clock);
            let ghost b = eb@;
            edits.put(path, eb);
            proof {
                crate::buffers::lemma_take_put(e0, en@.path, b, edits::bumped(clock));
                assert(edits@ =~= e0.with_buffer(en@.path, b, edits::bumped(clock)));
                if replacement_stands(old(state)@, e0) && truth::all_truthful(e0) {
                    lemma_swap_true(
                        e0,
                        en@.path,
                        own,
                        at as int,
                        len as int,
                        en@.replacement_text,
                        original@,
                        en@.hit,
                        mark,
                    );
                }
            }
            let ghost e2 = edits@;
            if !own {
                edits.push_single(backward(&en, original));
            }
            proof {
                truth::lemma_same_buffers(e2, edits@);
            }
        },
        None => {
            proof {
                assert(edits@ =~= e0);
            }
            edits.push_single(backward(&en, original));
            proof {
                truth::lemma_same_buffers(e0, edits@);
            }
        },
    }
}

/// A replacement in a loaded buffer that is taken back leaves the text as
/// it was, and the hit is not replaced any more.
pub proof fn taking_back_undoes_replacing(s: SearchView, t: TabsView, e: EditsView)
    requires
        s.selection is Result,
        s.selection->0 < s.flat_hits.len(),
        s.hit_replacements.len() == s.flat_hits.len(),
        s.hit_replacements[s.selection->0 as int] is None,
        s.query.text().len() > 0 || s.replace.text().len() > 0,
        ({
            let hit = s.flat_hits[s.selection->0 as int];
            let text = e.buffers[hit.path].text;
            &&& hit.matched().len() > 0
            &&& e.has(hit.path)
            &&& hit_place(text, hit) matches Some(at) && text.subrange(
                at,
                at + hit.matched().len(),
            ) == hit.matched()
            &&& text.len() + s.replace.text().len() <= usize::MAX
        }),
    ensures
        ({
            let (s2, e2) = replaced(s, t, e);
            let (s3, e3) = unreplaced(SearchView { selection: s.selection, ..s2 }, t, e2);
            let path = s.flat_hits[s.selection->0 as int].path;
            &&& e3.buffers[path].text == e.buffers[path].text
            &&& s3.hit_replacements == s.hit_replacements
        }),
{
    let i = s.selection->0 as int;
    let hit = s.flat_hits[i];
    let put = s.replace.text();
    let gone = hit.matched();
    let b = e.buffers[hit.path];
    let at = hit_place(b.text, hit)->0;
    text::lemma_line_start(b.text, hit.line0());
    let (s2, e2) = replaced(s, t, e);
    let t2 = e2.buffers[hit.path].text;
    assert(t2 == spliced(b.text, at, gone.len() as int, put));
    let en = hits::entry_of(hit, put, at);
    assert(s2.hit_replacements =~= s.hit_replacements.update(i, Some(en)));
    let back = SearchView { selection: s.selection, ..s2 };
    let (s3, e3) = unreplaced(back, t, e2);
    let t3 = e3.buffers[hit.path].text;
    assert(t3 == spliced(t2, at, put.len() as int, gone));
    assert(t3 =~= b.text) by {
        assert forall|k: int| 0 <= k < t3.len() implies t3[k] == b.text[k] by {
            if at <= k < at + gone.len() {
                assert(gone[k - at] == b.text.subrange(at, at + gone.len())[k - at]);
            }
        }
    }
    assert(s3.hit_replacements =~= s.hit_replacements);
}

// ---------------------------------------------------------------------
// Laws
// ---------------------------------------------------------------------

/// Replacing the selected hit puts the new text where the hit stands, and
/// leaves the rest of the text: in a loaded buffer at once, which gets dirty
/// if the file is open in a lasting tab and is written to disk else; a file
/// that is not loaded is written to disk. The next hit that was not replaced
/// is selected, and an undo takes the change back.
pub proof fn replacing_a_hit_swaps_its_text(s: SearchView, t: TabsView, e: EditsView, i: int, at: int)
    requires
        s.selection == FileSearchSelection::Result(i as usize),
        0 <= i < s.flat_hits.len() <= usize::MAX,
        s.hit_replacements.len() == s.flat_hits.len(),
        s.hit_replacements[i] is None,
        s.flat_hits[i].matched().len() > 0,
        s.query.text().len() > 0 || s.replace.text().len() > 0,
        ({
            let hit = s.flat_hits[i];
            let text = e.buffers[hit.path].text;
            let line = if hit.line == 0 {
                0
            } else {
                hit.line - 1
            };
            let col = if hit.col == 0 {
                0
            } else {
                hit.col - 1
            };
            e.has(hit.path) ==> {
                &&& line < text::line_count(text)
                &&& at == text::line_start(text, line) + col
                &&& at + hit.matched().len() <= text.len()
            }
        }),
    ensures
        ({
            let (s2, e2) = replaced(s, t, e);
            let hit = s.flat_hits[i];
            let put = s.replace.text();
            let n = hit.matched().len() as int;
            let b = e.buffers[hit.path];
            let b2 = e2.buffers[hit.path];
            let own = exists|k: int|
                0 <= k < t.open.len() && #[trigger] t.open[k].path == hit.path
                    && !t.open[k].preview;
            let asked = SingleReplaceView {
                path: hit.path,
                line: hit.line as int,
                match_start: hit.match_start as int,
                match_end: hit.match_end as int,
                original: hit.matched(),
                replacement: put,
            };
            &&& e.has(hit.path) ==> {
                &&& b2.text == b.text.subrange(0, at) + put + b.text.subrange(
                    at + n,
                    b.text.len() as int,
                )
                &&& own ==> b2.saved_version == b.saved_version && b2.version == edits::bumped(
                    b.version,
                ) && e2.pending_single_replace == e.pending_single_replace
                &&& !own ==> b2.saved_version == b2.version && e2.pending_single_replace
                    == e.pending_single_replace.push(asked)
                &&& b.text.subrange(at, at + n) == hit.matched() ==> undo::buffer_undone(b2).text
                    == b.text
            }
            &&& !e.has(hit.path) ==> e2.pending_single_replace == e.pending_single_replace.push(
                asked,
            ) && e2.buffers == e.buffers
            &&& s2.hit_replacements.len() == s.hit_replacements.len()
            &&& s2.hit_replacements[i] is Some
            &&& forall|k: int|
                0 <= k < s.hit_replacements.len() && k != i ==> #[trigger] s2.hit_replacements[k]
                    == s.hit_replacements[k]
            &&& s2.flat_hits == s.flat_hits
            &&& forall|p: Seq<char>|
                p != hit.path ==> #[trigger] e2.buffers[p] == e.buffers[p] && e2.has(p) == e.has(p)
            &&& (exists|k: int| 0 <= k < s.flat_hits.len() && k != i && s.hit_replacements[k] is None)
                ==> s2.selection is Result && (s2.selection->0) < s.flat_hits.len()
                && s2.hit_replacements[s2.selection->0 as int] is None
        }),
{
    let hit = s.flat_hits[i];
    let put = s.replace.text();
    let n = hit.matched().len() as int;
    let b = e.buffers[hit.path];
    let (s2, e2) = replaced(s, t, e);
    assert(sized(s) == s);
    seqs::lemma_first_from(t.open, lasting(hit.path), 0);
    let f = seqs::first_from(t.open, lasting(hit.path), 0);
    let own = exists|k: int|
        0 <= k < t.open.len() && #[trigger] t.open[k].path == hit.path && !t.open[k].preview;
    if f < t.open.len() {
        assert(lasting(hit.path)(t.open[f]));
        assert(t.open[f].path == hit.path && !t.open[f].preview);
    } else if own {
        let k = choose|k: int|
            0 <= k < t.open.len() && #[trigger] t.open[k].path == hit.path && !t.open[k].preview;
        assert(!lasting(hit.path)(t.open[k]));
    }
    if e.has(hit.path) {
        text::lemma_line_start(b.text, hit.line0());
        assert(hit_place(b.text, hit) == Some(at));
        let cut = text::removed(b.text, at, at + n);
        assert(cut.subrange(0, at) =~= b.text.subrange(0, at));
        assert(cut.subrange(at, cut.len() as int) =~= b.text.subrange(at + n, b.text.len() as int));
        if b.text.subrange(at, at + n) == hit.matched() {
            let b2 = e2.buffers[hit.path];
            let ops = edits::replace_ops(at, hit.matched(), put);
            truth::lemma_replace_ops(b.text, at, n, put);
            let h = b2.history;
            let m = h.past.len() as int;
            assert(ops.len() > 0);
            assert(edits::finalised(h) == h);
            assert(h.past[m - 1].ops == ops);
            assert(edits::last_real(h.past, m) == Some(m - 1));
            edits::inverting_ops_undoes_them(b.text, ops, 0);
        }
    }
    let mid = with_entry(s, i, s2.hit_replacements[i]);
    if exists|k: int| 0 <= k < s.flat_hits.len() && k != i && s.hit_replacements[k] is None {
        let k = choose|k: int|
            0 <= k < s.flat_hits.len() && k != i && s.hit_replacements[k] is None;
        assert(mid.hit_replacements[k] is None);
        advancing_finds_a_pending_hit(mid, k);
    }
}

/// A hit that was replaced already is not replaced again, and one that does
/// not stand in the text any more is left alone.
pub proof fn replacing_happens_once(s: SearchView, t: TabsView, e: EditsView, i: int)
    requires
        s.selection == FileSearchSelection::Result(i as usize),
        0 <= i < s.flat_hits.len() <= usize::MAX,
        s.hit_replacements.len() == s.flat_hits.len(),
    ensures
        s.hit_replacements[i] is Some ==> replaced(s, t, e).1 == e && replaced(
            s,
            t,
            e,
        ).0.hit_replacements == s.hit_replacements,
        s.hit_replacements[i] is None ==> unreplaced(s, t, e).1 == e,
{
    assert(sized(s) == s);
}

/// Taking a replacement back puts the old text where the new one stands, and
/// leaves the rest of the text and the selection.
pub proof fn taking_back_puts_the_hit_there_again(s: SearchView, t: TabsView, e: EditsView, i: int)
    requires
        s.selection == FileSearchSelection::Result(i as usize),
        0 <= i < s.flat_hits.len() <= usize::MAX,
        s.hit_replacements.len() == s.flat_hits.len(),
        s.hit_replacements[i] is Some,
        ({
            let en = s.hit_replacements[i]->0;
            e.has(en.path) ==> en.rope_char_start + en.replacement_char_len
                <= e.buffers[en.path].text.len()
        }),
    ensures
        ({
            let (s2, e2) = unreplaced(s, t, e);
            let en = s.hit_replacements[i]->0;
            let a = en.rope_char_start as int;
            let z = en.rope_char_start + en.replacement_char_len;
            let b = e.buffers[en.path];
            let b2 = e2.buffers[en.path];
            &&& e.has(en.path) ==> b2.text == b.text.subrange(0, a) + en.hit.matched()
                + b.text.subrange(z, b.text.len() as int)
            &&& !e.has(en.path) ==> e2.buffers == e.buffers && e2.pending_single_replace.len()
                == e.pending_single_replace.len() + 1
                && e2.pending_single_replace.last().replacement == en.hit.matched()
                && e2.pending_single_replace.last().original == en.replacement_text
            &&& s2.hit_replacements == s.hit_replacements.update(i, None)
            &&& s2.selection == s.selection
            &&& forall|p: Seq<char>|
                p != en.path ==> #[trigger] e2.buffers[p] == e.buffers[p] && e2.has(p) == e.has(p)
        }),
{
    assert(sized(s) == s);
    let en = s.hit_replacements[i]->0;
    let a = en.rope_char_start as int;
    let z = en.rope_char_start + en.replacement_char_len;
    let b = e.buffers[en.path];
    if e.has(en.path) {
        let cut = text::removed(b.text, a, z);
        assert(cut.subrange(0, a) =~= b.text.subrange(0, a));
        assert(cut.subrange(a, cut.len() as int) =~= b.text.subrange(z, b.text.len() as int));
    }
}

} // verus!
