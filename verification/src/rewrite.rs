//! Applying a replacement that was worked out for the active buffer:
//! reflowed paragraphs and sorted imports.

use vstd::prelude::*;

use crate::alerts;
use crate::alerts::{AlertState, AlertsView};
use crate::browser::PathChains;
use crate::browser;
use crate::buffers;
use crate::buffers::{put_active, take_active, BufferEdits, EditsView};
use crate::chars::substring;
use crate::columns;
use crate::columns::{cursor_to_char, line_grapheme_len, Cursor};
use crate::edit;
use crate::edits;
use crate::edits::{bump, bump_u64, BufferView, EditedBuffer};
use crate::paths;
use crate::paths::{after_last_slash, CanonPath};
use crate::replace_one;
use crate::tabs::{Tab, TabView, Tabs, TabsView};
use crate::text;
use crate::text::{rope_char_to_line, rope_clone, rope_insert, rope_len, rope_remove, rope_slice};
use crate::truth;

verus! {

/// A range of the text and what is to stand in its place.
pub struct Plan {
    pub start_char: usize,
    pub end_char: usize,
    pub replacement: String,
}

#[verifier::ext_equal]
pub struct PlanView {
    pub start: int,
    pub end: int,
    pub replacement: Seq<char>,
}

impl View for Plan {
    type V = PlanView;

    open spec fn view(&self) -> PlanView {
        PlanView {
            start: self.start_char as int,
            end: self.end_char as int,
            replacement: self.replacement@,
        }
    }
}

pub open spec fn opt_plan(p: Option<Plan>) -> Option<PlanView> {
    match p {
        Some(x) => Some(x@),
        None => None,
    }
}

/// The plan is about a range of the text.
pub open spec fn plan_fits(p: PlanView, t: Seq<char>) -> bool {
    0 <= p.start <= p.end <= t.len()
}

/// The text that a plan makes.
pub open spec fn planned_text(t: Seq<char>, p: PlanView) -> Seq<char> {
    replace_one::spliced(t, p.start, p.end - p.start, p.replacement)
}

/// A cursor pulled into a text.
pub open spec fn pulled_in(t: Seq<char>, c: Cursor) -> Cursor {
    let line = columns::clamped_line(t, c.line as int);
    let n = columns::col_count(t, line);
    let col = if c.col < n {
        c.col
    } else {
        n as usize
    };
    Cursor { line: line as usize, col, preferred_col: col }
}

/// A cursor that a replacement swallowed, put at the start of the line
/// where the replacement starts; any other as it is.
pub open spec fn put_before(t: Seq<char>, p: PlanView, c: Cursor) -> Cursor {
    let i = columns::cursor_index(t, c);
    if p.start <= i < p.start + p.replacement.len() {
        Cursor { line: text::line_of(t, p.start) as usize, col: 0, preferred_col: 0 }
    } else {
        c
    }
}

/// A buffer with a plan carried out. The cursor is pulled in after a
/// reflow, and put before sorted imports that it was in.
pub open spec fn planned(t: TabView, b: BufferView, clock: u64, p: PlanView, sort: bool) -> (
    TabView,
    BufferView,
    u64,
) {
    let new_text = planned_text(b.text, p);
    let after = if sort {
        put_before(new_text, p, t.cursor)
    } else {
        pulled_in(new_text, t.cursor)
    };
    (
        edit::at_cursor(t, after),
        edit::edited(
            b,
            clock,
            new_text,
            edits::replace_ops(p.start, b.text.subrange(p.start, p.end), p.replacement),
            t.cursor,
            after,
        ),
        edits::bumped(clock),
    )
}

pub open spec fn carrying_out(p: PlanView, sort: bool) -> buffers::Change {
    |t: TabView, b: BufferView, c: u64| planned(t, b, c, p, sort)
}

/// There is something to be done in the active tab, and the plan says what.
pub open spec fn plan_of(tabs: TabsView, e: EditsView, p: Option<PlanView>) -> Option<PlanView> {
    match (buffers::active_loaded(tabs, e), p) {
        (Some(i), Some(q)) => if !tabs.open[i].preview && plan_fits(
            q,
            e.buffers[tabs.open[i].path].text,
        ) {
            Some(q)
        } else {
            None
        },
        _ => None,
    }
}

/// The state after a reflow. Where there is nothing to reflow the user is
/// told so, but not in a preview.
pub open spec fn reflowed(
    tabs: TabsView,
    e: EditsView,
    a: AlertsView,
    p: Option<PlanView>,
    now: u64,
) -> (TabsView, EditsView, AlertsView) {
    match plan_of(tabs, e, p) {
        Some(q) => {
            let (t2, e2) = buffers::with_active(tabs, e, carrying_out(q, false));
            (t2, e2, a)
        },
        None => match buffers::active_loaded(tabs, e) {
            Some(i) => if tabs.open[i].preview {
                (tabs, e, a)
            } else {
                (tabs, e, alerts::informed(a, "Nothing to reflow"@, now))
            },
            None => (tabs, e, a),
        },
    }
}

/// The state after imports were sorted.
pub open spec fn imports_sorted(
    tabs: TabsView,
    e: EditsView,
    a: AlertsView,
    p: Option<PlanView>,
    now: u64,
) -> (TabsView, EditsView, AlertsView) {
    match plan_of(tabs, e, p) {
        Some(q) => {
            let (t2, e2) = buffers::with_active(tabs, e, carrying_out(q, true));
            (t2, e2, alerts::informed(a, "Imports sorted"@, now))
        },
        None => match buffers::active_loaded(tabs, e) {
            Some(_) => (tabs, e, alerts::informed(a, "Imports already sorted"@, now)),
            None => (tabs, e, a),
        },
    }
}

fn pull_in(rope: &ropey::Rope, c: Cursor) -> (r: Cursor)
    ensures
        r == pulled_in(text::rope_text(*rope), c),
{
    let line: usize = edit::cursor_line(&c, rope);
    let n: usize = line_grapheme_len(rope, line);
    let col: usize = if c.col < n {
        c.col
    } else {
        n
    };
    Cursor { line, col, preferred_col: col }
}

fn carry_out(tab: &mut Tab, eb: &mut EditedBuffer, clock: &mut u64, p: Plan, sort: bool)
    requires
        plan_fits(p@, old(eb)@.text),
    ensures
        (final(tab)@, final(eb)@, *final(clock)) == planned(
            old(tab)@,
            old(eb)@,
            *old(clock),
            p@,
            sort,
        ),
        truth::truthful(old(eb)@) ==> truth::truthful(final(eb)@),
{
    let before = tab.cursor;
    let gone = rope_slice(&eb.rope, p.start_char, p.end_char);
    let mut rope = rope_clone(&eb.rope);
    rope_remove(&mut rope, p.start_char, p.end_char);
    rope_insert(&mut rope, p.start_char, p.replacement.as_str());
    let after = if sort {
        let i: usize = cursor_to_char(&before, &rope);
        let n: usize = p.replacement.as_str().unicode_len();
        if p.start_char <= i && i - p.start_char < n {
            let total: usize = rope_len(&rope);
            proof {
                text::lemma_line_of(text::rope_text(rope), p.start_char as int);
            }
            let line: usize = rope_char_to_line(&rope, p.start_char);
            Cursor { line, col: 0, preferred_col: 0 }
        } else {
            before
        }
    } else {
        pull_in(&rope, before)
    };
    bump(eb, rope);
    let seq: u64 = bump_u64(*clock);
    *clock = seq;
    eb.history.record_replace(seq, p.start_char, gone, p.replacement, before, after, None);
    tab.cursor = after;
    proof {
        if truth::truthful(old(eb)@) {
            truth::lemma_replacement(
                old(eb)@.history,
                old(eb)@.text,
                seq,
                p.start_char as int,
                p.end_char - p.start_char,
                p.replacement@,
                before,
                after,
                None,
            );
        }
    }
}

/// Whether the plan can be carried out in the active tab, and whether
/// there is such a tab with a loaded buffer at all.
fn look_at(tabs: &Tabs, edits: &BufferEdits, plan: &Option<Plan>) -> (r: (bool, bool, bool))
    ensures
        r.0 == (plan_of(tabs@, edits@, opt_plan(*plan)) is Some),
        r.1 == (buffers::active_loaded(tabs@, edits@) is Some),
        r.1 ==> r.2 == tabs@.open[buffers::active_loaded(tabs@, edits@)->0].preview,
{
    let i: usize = match tabs.active_index() {
        Some(i) => i,
        None => {
            return (false, false, false);
        },
    };
    let tab = tabs.at(i);
    match edits.get(tab.path.as_str()) {
        None => (false, false, false),
        Some(eb) => {
            let fits: bool = match plan {
                Some(p) => p.start_char <= p.end_char && p.end_char <= rope_len(&eb.rope),
                None => false,
            };
            (fits && !tab.preview, true, tab.preview)
        },
    }
}

fn apply_plan(tabs: &mut Tabs, edits: &mut BufferEdits, plan: Plan, sort: bool)
    requires
        plan_of(old(tabs)@, old(edits)@, Some(plan@)) is Some,
    ensures
        (final(tabs)@, final(edits)@) == buffers::with_active(
            old(tabs)@,
            old(edits)@,
            carrying_out(plan@, sort),
        ),
        truth::all_truthful(old(edits)@) ==> truth::all_truthful(final(edits)@),
{
    let ghost e0 = edits@;
    match take_active(tabs, edits) {
        None => {},
        Some((i, tab, eb)) => {
            let mut tab = tab;
            let mut eb = eb;
            let path = tab.path.text.clone();
            let mut clock: u64 = edits.clock;
            carry_out(&mut tab, &mut eb, &mut clock, plan, sort);
            put_active(tabs, edits, i, path, tab, eb, clock);
            proof {
                buffers::lemma_take_put(e0, path@, eb@, clock);
                truth::lemma_kept(e0, path@, eb@, clock);
            }
        },
    }
}

/// Carries out the plan for the paragraph at the cursor, or tells that
/// there is none.
pub fn reflow_paragraph(
    tabs: &mut Tabs,
    edits: &mut BufferEdits,
    alerts: &mut AlertState,
    plan: Option<Plan>,
    now: u64,
)
    ensures
        (final(tabs)@, final(edits)@, final(alerts)@) == reflowed(
            old(tabs)@,
            old(edits)@,
            old(alerts)@,
            opt_plan(plan),
            now,
        ),
        truth::all_truthful(old(edits)@) ==> truth::all_truthful(final(edits)@),
{
    let (doable, loaded, preview) = look_at(tabs, edits, &plan);
    if doable {
        if let Some(p) = plan {
            apply_plan(tabs, edits, p, false);
        }
    } else if loaded && !preview {
        alerts.set_info("Nothing to reflow".to_owned(), now);
    }
}

/// Carries out the plan for the imports of the active buffer, and tells
/// what became of it.
pub fn sort_imports(
    tabs: &mut Tabs,
    edits: &mut BufferEdits,
    alerts: &mut AlertState,
    plan: Option<Plan>,
    now: u64,
)
    ensures
        (final(tabs)@, final(edits)@, final(alerts)@) == imports_sorted(
            old(tabs)@,
            old(edits)@,
            old(alerts)@,
            opt_plan(plan),
            now,
        ),
        truth::all_truthful(old(edits)@) ==> truth::all_truthful(final(edits)@),
{
    let (doable, loaded, _) = look_at(tabs, edits, &plan);
    if doable {
        if let Some(p) = plan {
            apply_plan(tabs, edits, p, true);
            alerts.set_info("Imports sorted".to_owned(), now);
        }
    } else if loaded {
        alerts.set_info("Imports already sorted".to_owned(), now);
    }
}

/// A plan that is carried out can be undone.
pub proof fn rewriting_can_be_undone(t: TabView, b: BufferView, clock: u64, p: PlanView, sort: bool)
    requires
        plan_fits(p, b.text),
    ensures
        crate::undo::buffer_undone(planned(t, b, clock, p, sort).1).text == b.text || planned_text(
            b.text,
            p,
        ) == b.text,
{
    let ops = edits::replace_ops(p.start, b.text.subrange(p.start, p.end), p.replacement);
    let gone = b.text.subrange(p.start, p.end);
    let mid = text::removed(b.text, p.start, p.end);
    let new_text = planned_text(b.text, p);
    let (t2, b2, c2) = planned(t, b, clock, p, sort);
    let f = edits::finalised(b2.history);
    assert(f == b2.history);
    if ops.len() == 0 {
        assert(new_text =~= b.text);
    } else {
        let past = b2.history.past;
        assert(past.last().ops == ops);
        assert(edits::last_real(past, past.len() as int) == Some(past.len() - 1));
        reveal_with_fuel(edits::ops_inverted, 4);
        if gone.len() > 0 && p.replacement.len() > 0 {
            assert(ops =~= seq![
                edits::OpView::Delete { at: p.start, text: gone },
                edits::OpView::Insert { at: p.start, text: p.replacement },
            ]);
            assert(edits::op_inverted_within(new_text, ops[1]) =~= mid);
            assert(edits::op_inverted_within(mid, ops[0]) =~= b.text);
        } else if gone.len() > 0 {
            assert(ops =~= seq![edits::OpView::Delete { at: p.start, text: gone }]);
            assert(new_text =~= mid);
            assert(edits::op_inverted_within(mid, ops[0]) =~= b.text);
        } else {
            assert(ops =~= seq![edits::OpView::Insert { at: p.start, text: p.replacement }]);
            assert(mid =~= b.text);
            assert(edits::op_inverted_within(new_text, ops[0]) =~= b.text);
        }
        assert(crate::undo::buffer_undone(b2).text =~= b.text);
    }
}

// ---------------------------------------------------------------------
// File names
// ---------------------------------------------------------------------

/// Where the last `.` before `n` stands, or -1.
pub open spec fn last_dot(s: Seq<char>, n: int) -> int
    decreases n,
{
    if n <= 0 || n > s.len() {
        -1
    } else if s[n - 1] == '.' {
        n - 1
    } else {
        last_dot(s, n - 1)
    }
}

/// The extension of a file name: what follows its last `.`, unless that
/// starts the name.
pub open spec fn extension(path: Seq<char>) -> Option<Seq<char>> {
    let name = paths::base_name(path);
    let d = last_dot(name, name.len() as int);
    if d > 0 && name != seq!['.', '.'] {
        Some(name.subrange(d + 1, name.len() as int))
    } else {
        None
    }
}

/// The first extension that a path of a chain has, from the `i`th on.
pub open spec fn first_extension(q: Seq<Seq<char>>, i: int) -> Option<Seq<char>>
    decreases q.len() - i,
{
    if i < 0 || i >= q.len() {
        None
    } else if extension(q[i]) is Some {
        extension(q[i])
    } else {
        first_extension(q, i + 1)
    }
}

/// The extension that tells what a file is: the first along the chain by
/// which the user reached it, else its own.
pub open spec fn telling_extension(path: Seq<char>, chains: Map<Seq<char>, Seq<Seq<char>>>) -> Option<
    Seq<char>,
> {
    if chains.dom().contains(path) && first_extension(chains[path], 0) is Some {
        first_extension(chains[path], 0)
    } else {
        extension(path)
    }
}

fn find_extension(path: &str) -> (r: Option<String>)
    ensures
        match r {
            Some(x) => extension(path@) == Some(x@),
            None => extension(path@) is None,
        },
{
    let a: usize = after_last_slash(path);
    let total: usize = path.unicode_len();
    let name = substring(path, a, total);
    assert(name@ =~= paths::base_name(path@));
    let n: usize = name.as_str().unicode_len();
    let mut i: usize = n;
    while i > 0 && name.as_str().get_char(i - 1) != '.'
        invariant
            i <= n,
            n == name@.len(),
            last_dot(name@, n as int) == last_dot(name@, i as int),
        decreases i,
    {
        i = i - 1;
    }
    if i <= 1 {
        return None;
    }
    if n == 2 && name.as_str().get_char(0) == '.' && name.as_str().get_char(1) == '.' {
        assert(name@ =~= seq!['.', '.']);
        return None;
    }
    proof {
        if name@ == seq!['.', '.'] {
            assert(name@[0] == '.' && name@[1] == '.');
        }
    }
    Some(substring(name.as_str(), i, n))
}

pub fn file_extension(path: &CanonPath, path_chains: &PathChains) -> (r: Option<String>)
    ensures
        match r {
            Some(x) => telling_extension(
                path@,
                browser::chain_views(path_chains.map()),
            ) == Some(x@),
            None => telling_extension(
                path@,
                browser::chain_views(path_chains.map()),
            ) is None,
        },
{
    if let Some(chain) = path_chains.get(path.as_str()) {
        let ghost q = buffers::string_views(chain@);
        let mut i: usize = 0;
        while i < chain.len()
            invariant
                i <= chain.len(),
                path_chains.map().dom().contains(path@),
                *chain == path_chains.map()[path@],
                q == buffers::string_views(chain@),
                q == browser::chain_views(path_chains.map())[path@],
                first_extension(q, 0) == first_extension(q, i as int),
            decreases chain.len() - i,
        {
            assert(q[i as int] == chain[i as int]@);
            if let Some(x) = find_extension(chain[i].as_str()) {
                return Some(x);
            }
            i = i + 1;
        }
    }
    find_extension(path.as_str())
}

// ---------------------------------------------------------------------
// Laws
// ---------------------------------------------------------------------

/// A plan puts its text in the place of its range, and leaves the rest of
/// the text, the other tabs and the other buffers; a preview, or a plan that
/// does not fit, changes no text.
pub proof fn a_plan_is_carried_out_in_its_range(
    tabs: TabsView,
    e: EditsView,
    a: AlertsView,
    p: PlanView,
    now: u64,
    i: int,
)
    requires
        buffers::active_loaded(tabs, e) == Some(i),
    ensures
        ({
            let path = tabs.open[i].path;
            let t = e.buffers[path].text;
            let fits = !tabs.open[i].preview && 0 <= p.start <= p.end <= t.len();
            let (t2, e2, a2) = reflowed(tabs, e, a, Some(p), now);
            let (t3, e3, a3) = imports_sorted(tabs, e, a, Some(p), now);
            let new_text = t.subrange(0, p.start) + p.replacement + t.subrange(
                p.end,
                t.len() as int,
            );
            &&& fits ==> {
                &&& e2.buffers[path].text == new_text
                &&& e3.buffers[path].text == new_text
                &&& buffers::only_there(tabs, e, t2, e2, i)
                &&& buffers::only_there(tabs, e, t3, e3, i)
                &&& a2 == a
                &&& a3.info is Some
                &&& (a3.info->0).0 == "Imports sorted"@
            }
            &&& !fits ==> t2 == tabs && e2 == e && t3 == tabs && e3 == e
            &&& !fits && !tabs.open[i].preview ==> a2.info is Some && (a2.info->0).0
                == "Nothing to reflow"@
            &&& tabs.open[i].preview ==> a2 == a
            &&& reflowed(tabs, e, a, None, now).1 == e
            &&& imports_sorted(tabs, e, a, None, now).1 == e
            &&& imports_sorted(tabs, e, a, None, now).2.info is Some
            &&& (imports_sorted(tabs, e, a, None, now).2.info->0).0 == "Imports already sorted"@
        }),
{
    buffers::a_change_is_made_in_the_active_tab(tabs, e, carrying_out(p, false));
    buffers::a_change_is_made_in_the_active_tab(tabs, e, carrying_out(p, true));
    let t = e.buffers[tabs.open[i].path].text;
    if 0 <= p.start <= p.end <= t.len() {
        let cut = text::removed(t, p.start, p.end);
        assert(cut.subrange(0, p.start) =~= t.subrange(0, p.start));
        assert(cut.subrange(p.start, cut.len() as int) =~= t.subrange(p.end, t.len() as int));
    }
}

proof fn lemma_last_dot(s: Seq<char>, n: int)
    requires
        0 <= n <= s.len(),
    ensures
        -1 <= last_dot(s, n) < n,
        last_dot(s, n) >= 0 ==> s[last_dot(s, n)] == '.',
        forall|i: int| last_dot(s, n) < i < n ==> s[i] != '.',
    decreases n,
{
    if n > 0 {
        lemma_last_dot(s, n - 1);
    }
}

/// A file name with a dot behind its start has as its extension what stands
/// behind the last one; without such a dot it has none.
pub proof fn the_extension_stands_behind_the_last_dot(path: Seq<char>, stem: Seq<char>, ext: Seq<char>)
    requires
        forall|i: int| 0 <= i < ext.len() ==> #[trigger] ext[i] != '.',
    ensures
        paths::base_name(path) == stem + seq!['.'] + ext && stem.len() > 0 && paths::base_name(path)
            != seq!['.', '.'] ==> extension(path) == Some(ext),
        paths::base_name(path) == seq!['.'] + ext || paths::base_name(path) == ext ==> extension(
            path,
        ) is None,
{
    let name = paths::base_name(path);
    let n = name.len() as int;
    lemma_last_dot(name, n);
    let d = last_dot(name, n);
    if name == stem + seq!['.'] + ext && stem.len() > 0 {
        let k = stem.len() as int;
        assert(name[k] == '.');
        assert forall|i: int| k < i < n implies name[i] != '.' by {
            assert(name[i] == ext[i - k - 1]);
        }
        assert(d == k);
        assert(name.subrange(d + 1, n) =~= ext);
    }
    if name == seq!['.'] + ext {
        assert forall|i: int| 0 < i < n implies name[i] != '.' by {
            assert(name[i] == ext[i - 1]);
        }
    }
    if name == ext {
        assert(d == -1);
    }
}

/// The extension that tells what a file is comes from the first path of its
/// chain that has one, and without such a path from its own name.
pub proof fn the_chain_tells_what_a_file_is(
    path: Seq<char>,
    chains: Map<Seq<char>, Seq<Seq<char>>>,
    k: int,
)
    ensures
        !chains.dom().contains(path) ==> telling_extension(path, chains) == extension(path),
        chains.dom().contains(path) && 0 <= k < chains[path].len() && extension(chains[path][k])
            is Some && (forall|j: int|
            0 <= j < k ==> extension(#[trigger] chains[path][j]) is None) ==> telling_extension(
            path,
            chains,
        ) == extension(chains[path][k]),
        chains.dom().contains(path) && (forall|j: int|
            0 <= j < chains[path].len() ==> extension(#[trigger] chains[path][j]) is None)
            ==> telling_extension(path, chains) == extension(path),
{
    let q = chains[path];
    if 0 <= k < q.len() && extension(q[k]) is Some && (forall|j: int|
        0 <= j < k ==> extension(#[trigger] q[j]) is None) {
        lemma_first_extension(q, 0, k);
    }
    if forall|j: int| 0 <= j < q.len() ==> extension(#[trigger] q[j]) is None {
        lemma_first_extension(q, 0, q.len() as int);
    }
}

proof fn lemma_first_extension(q: Seq<Seq<char>>, a: int, k: int)
    requires
        0 <= a <= k <= q.len(),
        forall|j: int| a <= j < k ==> extension(#[trigger] q[j]) is None,
        k < q.len() ==> extension(q[k]) is Some,
    ensures
        first_extension(q, a) == if k < q.len() {
            extension(q[k])
        } else {
            None
        },
    decreases k - a,
{
    if a < k {
        assert(extension(q[a]) is None);
        lemma_first_extension(q, a + 1, k);
    }
}

/// After a reflow the cursor stays, or goes to the end of a line or a text
/// that got shorter; sorted imports leave it, unless it stood in them, and
/// then it stands at the start of their first line.
pub proof fn the_cursor_stays_near(t: TabView, b: BufferView, clock: u64, p: PlanView)
    requires
        plan_fits(p, b.text),
        text::line_count(planned_text(b.text, p)) <= usize::MAX,
    ensures
        ({
            let new_text = planned_text(b.text, p);
            let r = planned(t, b, clock, p, false).0.cursor;
            let s = planned(t, b, clock, p, true).0.cursor;
            let last = text::line_count(new_text) - 1;
            let n = columns::col_count(new_text, r.line as int);
            let at = columns::cursor_index(new_text, t.cursor);
            let swallowed = p.start <= at < p.start + p.replacement.len();
            &&& t.cursor.line <= last ==> r.line == t.cursor.line
            &&& t.cursor.line > last ==> r.line == last
            &&& t.cursor.col <= n ==> r.col == t.cursor.col
            &&& t.cursor.col > n && n <= usize::MAX ==> r.col == n
            &&& !swallowed ==> s == t.cursor
            &&& swallowed ==> s.col == 0 && s.preferred_col == 0 && s.line == text::line_of(
                new_text,
                p.start,
            ) as usize
        }),
{
    text::text_has_a_line(planned_text(b.text, p));
}

} // verus!
