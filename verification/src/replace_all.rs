//! Replacing all hits of a query at once.

use vstd::prelude::*;

use crate::buffers;
use crate::buffers::{
    BufferEdits, EditsView, InMemoryReplace, InMemoryView, PendingReplaceAll, ReplaceAllView,
};
use crate::chars;
use crate::edits;
use crate::edits::{bump, BufferView};
use crate::hits::{FileSearchState, SearchView};
use crate::listing;
use crate::listing::sorted_keys;
use crate::paths::CanonPath;
use crate::replace_one;
use crate::replace_one::settle;
use crate::seqs;
use crate::tabs::{TabView, Tabs, TabsView};
use crate::text;
use crate::text::{rope_of, rope_string};
use crate::truth;

verus! {

// ---------------------------------------------------------------------
// Regular expressions
// ---------------------------------------------------------------------

/// A character that means something in a pattern.
pub open spec fn meta(c: char) -> bool {
    ||| c == '\\' || c == '.' || c == '+' || c == '*' || c == '?' || c == '(' || c == ')'
    ||| c == '|' || c == '[' || c == ']' || c == '{' || c == '}' || c == '^' || c == '$'
    ||| c == '#' || c == '&' || c == '-' || c == '~'
}

/// A text with a backslash before every character that means something in
/// a pattern.
pub open spec fn escaped(s: Seq<char>) -> Seq<char>
    decreases s.len(),
{
    if s.len() == 0 {
        seq![]
    } else if meta(s.last()) {
        escaped(s.drop_last()).push('\\').push(s.last())
    } else {
        escaped(s.drop_last()).push(s.last())
    }
}

/// Whether `regex::RegexBuilder::build` accepts a pattern, with or without
/// regard to case.
pub uninterp spec fn compiles(pattern: Seq<char>, ignore_case: bool) -> bool;

/// How many matches `regex::Regex::find_iter` finds in a text.
pub uninterp spec fn match_count(pattern: Seq<char>, ignore_case: bool, t: Seq<char>) -> usize;

/// What `regex::Regex::replace_all` makes of a text.
pub uninterp spec fn all_matches_replaced(
    pattern: Seq<char>,
    ignore_case: bool,
    t: Seq<char>,
    put: Seq<char>,
) -> Seq<char>;

/// `regex_syntax::escape`: the text with a backslash before each character
/// that means something in a pattern.
#[verifier::external_body]
fn regex_escape(s: &str) -> (r: String)
    ensures
        r@ == escaped(s@),
{
    regex_syntax::escape(s)
}

/// `regex::RegexBuilder::build`: whether the pattern is well formed and not
/// too large. Only that this depends on the arguments alone is claimed. The
/// size limit counts bytes of what a pattern compiles to; where it lies is
/// left unsaid.
#[verifier::external_body]
fn regex_compiles(pattern: &str, ignore_case: bool) -> (r: bool)
    ensures
        r == compiles(pattern@, ignore_case),
{
    regex::RegexBuilder::new(pattern).case_insensitive(ignore_case).build().is_ok()
}

/// `regex::Regex::find_iter`, counted: the number of matches that do not
/// overlap. Only that it depends on the arguments alone is claimed.
#[verifier::external_body]
fn regex_count(pattern: &str, ignore_case: bool, t: &str) -> (n: usize)
    requires
        compiles(pattern@, ignore_case),
    ensures
        n == match_count(pattern@, ignore_case, t@),
{
    let re = regex::RegexBuilder::new(pattern).case_insensitive(ignore_case).build().unwrap();
    re.find_iter(t).count()
}

/// `regex::Regex::replace_all` with a replacement text, in which `$` names
/// groups. Only that the result depends on the arguments alone is claimed.
#[verifier::external_body]
fn regex_replace_all(pattern: &str, ignore_case: bool, t: &str, put: &str) -> (r: String)
    requires
        compiles(pattern@, ignore_case),
    ensures
        r@ == all_matches_replaced(pattern@, ignore_case, t@, put@),
{
    let re = regex::RegexBuilder::new(pattern).case_insensitive(ignore_case).build().unwrap();
    re.replace_all(t, put).into_owned()
}

// ---------------------------------------------------------------------
// Buffers
// ---------------------------------------------------------------------

pub open spec fn looked_at(path: Seq<char>) -> spec_fn(TabView) -> bool {
    |t: TabView| t.path == path && t.preview
}

/// A file that is shown in a preview tab and in no lasting one.
pub open spec fn previewed(t: TabsView, path: Seq<char>) -> bool {
    seqs::first_index(t.open, looked_at(path)) is Some && seqs::first_index(
        t.open,
        replace_one::lasting(path),
    ) is None
}

fn is_previewed(tabs: &Tabs, path: &str) -> (r: bool)
    ensures
        r == previewed(tabs@, path@),
{
    let n: usize = tabs.len();
    let mut i: usize = 0;
    let mut seen: bool = false;
    while i < n
        invariant
            i <= n,
            n == tabs@.open.len(),
            forall|j: int| 0 <= j < i ==> !replace_one::lasting(path@)(#[trigger] tabs@.open[j]),
            seen ==> seqs::first_index(tabs@.open, looked_at(path@)) is Some,
            !seen ==> forall|j: int| 0 <= j < i ==> !looked_at(path@)(#[trigger] tabs@.open[j]),
        decreases n - i,
    {
        let t = tabs.at(i);
        if chars::same_text(t.path.as_str(), path) {
            if !t.preview {
                proof {
                    seqs::lemma_first_is(tabs@.open, replace_one::lasting(path@), 0, i as int);
                }
                return false;
            }
            if !seen {
                proof {
                    seqs::lemma_first_is(tabs@.open, looked_at(path@), 0, i as int);
                }
                seen = true;
            }
        }
        i = i + 1;
    }
    proof {
        seqs::lemma_first_none(tabs@.open, replace_one::lasting(path@), 0);
        if !seen {
            seqs::lemma_first_none(tabs@.open, looked_at(path@), 0);
        }
    }
    seen
}

/// The edits after one buffer was given the text that `count` replacements
/// make. A buffer that is only previewed stays clean: its file is
/// rewritten on disk too.
pub open spec fn buffer_replaced(
    e: EditsView,
    t: TabsView,
    path: Seq<char>,
    count: usize,
    new_text: Seq<char>,
) -> EditsView {
    if !e.has(path) || count == 0 || new_text == e.buffers[path].text {
        e
    } else {
        let b = edits::retexted(e.buffers[path], new_text);
        let b2 = if previewed(t, path) {
            replace_one::settled(b)
        } else {
            b
        };
        EditsView {
            pending_replace_in_memory: e.pending_replace_in_memory.push(
                InMemoryView { path, count: count as int },
            ),
            ..e.with_buffer(path, b2, e.clock)
        }
    }
}

/// Gives a loaded buffer the text that `count` replacements make of it.
pub fn replace_in_buffer(
    edits: &mut BufferEdits,
    tabs: &Tabs,
    path: &str,
    count: usize,
    new_text: &str,
)
    ensures
        final(edits)@ == buffer_replaced(old(edits)@, tabs@, path@, count, new_text@),
{
    if count == 0 {
        return;
    }
    let same: bool = match edits.get(path) {
        Some(eb) => {
            let s = rope_string(&eb.rope);
            chars::same_text(s.as_str(), new_text)
        },
        None => true,
    };
    if same {
        return;
    }
    let ghost e0 = edits@;
    match edits.take(path) {
        Some(eb) => {
            let mut eb = eb;
            bump(&mut eb, rope_of(new_text));
            if is_previewed(tabs, path) {
                settle(&mut eb);
            }
            let ghost b = eb@;
            edits.put(path.to_owned(), eb);
            proof {
                buffers::lemma_take_put(e0, path@, b, e0.clock);
            }
            edits.push_in_memory(InMemoryReplace { path: CanonPath::new(path), count });
            assert(edits@ =~= buffer_replaced(e0, tabs@, path@, count, new_text@));
        },
        None => {},
    }
}

/// The edits after the first `n` of the buffers `q` were treated.
pub open spec fn buffers_replaced(
    pattern: Seq<char>,
    ignore_case: bool,
    put: Seq<char>,
    t: TabsView,
    e: EditsView,
    q: Seq<Seq<char>>,
    n: int,
) -> EditsView
    decreases n,
{
    if n <= 0 {
        e
    } else {
        let e1 = buffers_replaced(pattern, ignore_case, put, t, e, q, n - 1);
        let path = q[n - 1];
        let old_text = e1.buffers[path].text;
        buffer_replaced(
            e1,
            t,
            path,
            match_count(pattern, ignore_case, old_text),
            all_matches_replaced(pattern, ignore_case, old_text, put),
        )
    }
}

/// Those of the first `n` paths of `q` that are not only previewed.
pub open spec fn kept_in_memory(t: TabsView, q: Seq<Seq<char>>, n: int) -> Seq<Seq<char>>
    decreases n,
{
    if n <= 0 {
        seq![]
    } else if previewed(t, q[n - 1]) {
        kept_in_memory(t, q, n - 1)
    } else {
        kept_in_memory(t, q, n - 1).push(q[n - 1])
    }
}

/// The pattern that a query stands for.
pub open spec fn pattern_of(s: SearchView) -> Seq<char> {
    if s.use_regex {
        s.query.text()
    } else {
        escaped(s.query.text())
    }
}

/// What replacing everything does: the loaded buffers one by one, in the
/// order of their paths, and a request to rewrite all other files under
/// the root.
pub open spec fn all_replaced(
    s: SearchView,
    t: TabsView,
    e: EditsView,
    root: Option<Seq<char>>,
) -> EditsView {
    let pattern = pattern_of(s);
    let ignore_case = !s.case_sensitive;
    if s.query.text().len() == 0 || !compiles(pattern, ignore_case) {
        e
    } else {
        let q = listing::listing(e.buffers.dom());
        let n = q.len() as int;
        let e2 = buffers_replaced(pattern, ignore_case, s.replace.text(), t, e, q, n);
        match root {
            None => e2,
            Some(r) => EditsView {
                pending_replace_all: e2.pending_replace_all.push(
                    ReplaceAllView {
                        root: r,
                        query: s.query.text(),
                        replacement: s.replace.text(),
                        case_sensitive: s.case_sensitive,
                        use_regex: s.use_regex,
                        skip_paths: kept_in_memory(t, q, n),
                    },
                ),
                ..e2
            },
        }
    }
}

/// Treating buffers leaves the set of loaded buffers alone.
pub proof fn replacing_keeps_buffers_loaded(
    pattern: Seq<char>,
    ignore_case: bool,
    put: Seq<char>,
    t: TabsView,
    e: EditsView,
    q: Seq<Seq<char>>,
    n: int,
)
    requires
        forall|i: int| 0 <= i < q.len() ==> e.has(#[trigger] q[i]),
        0 <= n <= q.len(),
    ensures
        buffers_replaced(pattern, ignore_case, put, t, e, q, n).buffers.dom() == e.buffers.dom(),
    decreases n,
{
    if n > 0 {
        replacing_keeps_buffers_loaded(pattern, ignore_case, put, t, e, q, n - 1);
        let e1 = buffers_replaced(pattern, ignore_case, put, t, e, q, n - 1);
        assert(e.has(q[n - 1]));
        assert(buffers_replaced(pattern, ignore_case, put, t, e, q, n).buffers.dom()
            =~= e.buffers.dom());
    }
}

/// Treating buffers leaves their histories as they are: the replacements
/// are not recorded.
proof fn lemma_histories_kept(
    pattern: Seq<char>,
    ignore_case: bool,
    put: Seq<char>,
    t: TabsView,
    e: EditsView,
    q: Seq<Seq<char>>,
    n: int,
    p: Seq<char>,
)
    requires
        e.has(p),
        0 <= n <= q.len(),
    ensures
        buffers_replaced(pattern, ignore_case, put, t, e, q, n).has(p),
        buffers_replaced(pattern, ignore_case, put, t, e, q, n).buffers[p].history
            == e.buffers[p].history,
    decreases n,
{
    if n > 0 {
        lemma_histories_kept(pattern, ignore_case, put, t, e, q, n - 1, p);
    }
}

/// A buffer of which no history can become untrue: its text is the same as
/// before, or nothing was recorded of it.
pub open spec fn harmless(before: BufferView, after: BufferView) -> bool {
    before.text == after.text || truth::blank(before.history)
}

/// Nothing was recorded of any buffer.
pub open spec fn all_blank(e: EditsView) -> bool {
    forall|p: Seq<char>| #[trigger] e.has(p) ==> truth::blank(e.buffers[p].history)
}

/// Replaces the query in every loaded buffer, and asks for the same in all
/// other files of the workspace. The replacements are not recorded, so the
/// history of a buffer that they change is no longer true, unless it is
/// blank.
pub fn apply_replace_all(
    state: &FileSearchState,
    tabs: &Tabs,
    edits: &mut BufferEdits,
    fs_root: &Option<CanonPath>,
)
    ensures
        final(edits)@ == all_replaced(
            state@,
            tabs@,
            old(edits)@,
            crate::browser::opt_path(*fs_root),
        ),
        forall|p: Seq<char>| #[trigger]
            old(edits)@.has(p) ==> final(edits)@.has(p) && (truth::truthful(
                old(edits)@.buffers[p],
            ) && harmless(old(edits)@.buffers[p], final(edits)@.buffers[p]) ==> truth::truthful(
                final(edits)@.buffers[p],
            )),
        forall|p: Seq<char>| #[trigger] final(edits)@.has(p) ==> old(edits)@.has(p),
{
    if state.query.is_empty() {
        return;
    }
    let query = state.query.text();
    let pattern = if state.use_regex {
        query.clone()
    } else {
        regex_escape(query.as_str())
    };
    let ignore_case: bool = !state.case_sensitive;
    if !regex_compiles(pattern.as_str(), ignore_case) {
        return;
    }
    let put = state.replace.text();
    let loaded = sorted_keys(&edits.buffers);
    let ghost e0 = edits@;
    let ghost q = buffers::string_views(loaded@);
    assert(edits.buffers.map().dom() =~= e0.buffers.dom());
    let mut skip: Vec<String> = Vec::new();
    assert(buffers::string_views(skip@) =~= seq![]);
    let mut i: usize = 0;
    while i < loaded.len()
        invariant
            i <= loaded.len(),
            q == buffers::string_views(loaded@),
            compiles(pattern@, ignore_case),
            edits@ == buffers_replaced(pattern@, ignore_case, put@, tabs@, e0, q, i as int),
            buffers::string_views(skip@) == kept_in_memory(tabs@, q, i as int),
        decreases loaded.len() - i,
    {
        let path = loaded[i].as_str();
        assert(q[i as int] == path@);
        let ghost e1 = edits@;
        match edits.get(path) {
            Some(eb) => {
                let t = rope_string(&eb.rope);
                let count: usize = regex_count(pattern.as_str(), ignore_case, t.as_str());
                let new_text = regex_replace_all(
                    pattern.as_str(),
                    ignore_case,
                    t.as_str(),
                    put.as_str(),
                );
                replace_in_buffer(edits, tabs, path, count, new_text.as_str());
            },
            None => {},
        }
        let ghost k0 = buffers::string_views(skip@);
        if !is_previewed(tabs, path) {
            skip.push(loaded[i].clone());
            assert(buffers::string_views(skip@) =~= k0.push(path@));
        }
        i = i + 1;
    }
    proof {
        assert(listing::is_listing(q, e0.buffers.dom()));
        assert forall|j: int| 0 <= j < q.len() implies e0.has(#[trigger] q[j]) by {
            assert(q.contains(q[j]));
        }
        replacing_keeps_buffers_loaded(pattern@, ignore_case, put@, tabs@, e0, q, q.len() as int);
        assert forall|p: Seq<char>| #[trigger] e0.has(p) implies edits@.has(p) && (
        truth::truthful(e0.buffers[p]) && harmless(e0.buffers[p], edits@.buffers[p])
            ==> truth::truthful(edits@.buffers[p])) by {
            lemma_histories_kept(
                pattern@,
                ignore_case,
                put@,
                tabs@,
                e0,
                q,
                q.len() as int,
                p,
            );
            if truth::blank(e0.buffers[p].history) {
                truth::blank_histories_are_true(
                    e0.buffers[p].history,
                    edits@.buffers[p].text,
                );
            }
        }
    }
    let ghost e1 = edits@;
    if let Some(root) = fs_root {
        edits.push_replace_all(
            PendingReplaceAll {
                root: root.copy(),
                query,
                replacement: put,
                case_sensitive: state.case_sensitive,
                use_regex: state.use_regex,
                skip_paths: skip,
            },
        );
    }
}

// ---------------------------------------------------------------------
// Laws
// ---------------------------------------------------------------------

/// Some tab shows a file, and all that do are previews.
pub open spec fn only_previewed(t: TabsView, p: Seq<char>) -> bool {
    &&& exists|i: int| 0 <= i < t.open.len() && #[trigger] t.open[i].path == p
    &&& forall|i: int|
        0 <= i < t.open.len() && #[trigger] t.open[i].path == p ==> t.open[i].preview
}

proof fn lemma_previewed(t: TabsView, p: Seq<char>)
    ensures
        previewed(t, p) == only_previewed(t, p),
{
    seqs::lemma_first_from(t.open, looked_at(p), 0);
    seqs::lemma_first_from(t.open, replace_one::lasting(p), 0);
    let a = seqs::first_from(t.open, looked_at(p), 0);
    let b = seqs::first_from(t.open, replace_one::lasting(p), 0);
    if previewed(t, p) {
        assert(looked_at(p)(t.open[a]));
        assert(t.open[a].path == p);
        assert forall|i: int|
            0 <= i < t.open.len() && #[trigger] t.open[i].path == p implies t.open[i].preview by {
            assert(!replace_one::lasting(p)(t.open[i]));
        }
    } else if only_previewed(t, p) {
        let i = choose|i: int| 0 <= i < t.open.len() && #[trigger] t.open[i].path == p;
        if a == t.open.len() {
            assert(!looked_at(p)(t.open[i]));
        }
        if b < t.open.len() {
            assert(replace_one::lasting(p)(t.open[b]));
            assert(t.open[b].path == p);
        }
    }
}

/// What becomes of one loaded buffer when everything is replaced.
pub open spec fn one_replaced(
    pattern: Seq<char>,
    ignore_case: bool,
    put: Seq<char>,
    t: TabsView,
    p: Seq<char>,
    before: BufferView,
    after: BufferView,
) -> bool {
    &&& after.history == before.history
    &&& match_count(pattern, ignore_case, before.text) == 0 ==> after == before
    &&& match_count(pattern, ignore_case, before.text) > 0 ==> after.text
        == all_matches_replaced(pattern, ignore_case, before.text, put)
    &&& after.text == before.text ==> after == before
    &&& after.text != before.text ==> after.version == edits::bumped(before.version) && if only_previewed(t, p) {
        after.saved_version == after.version && after.disk_content_hash == edits::content_hash(
            after.text,
        )
    } else {
        after.saved_version == before.saved_version && after.disk_content_hash
            == before.disk_content_hash
    }
}

proof fn lemma_one_replaced(
    pattern: Seq<char>,
    ignore_case: bool,
    put: Seq<char>,
    t: TabsView,
    e: EditsView,
    q: Seq<Seq<char>>,
    n: int,
    p: Seq<char>,
)
    requires
        0 <= n <= q.len(),
        e.has(p),
        forall|i: int| 0 <= i < q.len() ==> e.has(#[trigger] q[i]),
        forall|i: int, j: int| 0 <= i < j < q.len() ==> #[trigger] q[i] != #[trigger] q[j],
    ensures
        ({
            let r = buffers_replaced(pattern, ignore_case, put, t, e, q, n);
            let count = match_count(pattern, ignore_case, e.buffers[p].text);
            &&& r.has(p)
            &&& !(exists|i: int| 0 <= i < n && #[trigger] q[i] == p) ==> r.buffers[p]
                == e.buffers[p]
            &&& (exists|i: int| 0 <= i < n && #[trigger] q[i] == p) ==> one_replaced(
                pattern,
                ignore_case,
                put,
                t,
                p,
                e.buffers[p],
                r.buffers[p],
            ) && (r.buffers[p].text != e.buffers[p].text ==> r.pending_replace_in_memory.contains(
                InMemoryView { path: p, count: count as int },
            ))
            &&& r.pending_replace_all == e.pending_replace_all
            &&& r.pending_saves == e.pending_saves
            &&& r.pending_single_replace == e.pending_single_replace
            &&& (!(exists|i: int| 0 <= i < n && #[trigger] q[i] == p)
                ==> forall|k: int|
                0 <= k < r.pending_replace_in_memory.len() && #[trigger] r.pending_replace_in_memory[k].path == p
                    ==> e.pending_replace_in_memory.contains(r.pending_replace_in_memory[k]))
        }),
    decreases n,
{
    if n > 0 {
        lemma_one_replaced(pattern, ignore_case, put, t, e, q, n - 1, p);
        let e1 = buffers_replaced(pattern, ignore_case, put, t, e, q, n - 1);
        let r = buffers_replaced(pattern, ignore_case, put, t, e, q, n);
        let x = q[n - 1];
        lemma_previewed(t, x);
        let m1 = e1.pending_replace_in_memory;
        let m2 = r.pending_replace_in_memory;
        if m2 != m1 {
            assert(m2 == m1.push(m2.last()));
            assert(m2.last() == m2[m2.len() - 1]);
        }
        if x == p {
            assert forall|i: int| 0 <= i < n - 1 implies #[trigger] q[i] != p by {
                assert(q[i] != q[n - 1]);
            }
            assert(q[n - 1] == p);
            if r.buffers[p].text != e.buffers[p].text {
                assert(m2[m2.len() - 1].path == p);
                assert(m2.contains(m2[m2.len() - 1]));
            }
        } else {
            if exists|i: int| 0 <= i < n && #[trigger] q[i] == p {
                let i = choose|i: int| 0 <= i < n && #[trigger] q[i] == p;
                assert(0 <= i < n - 1 && q[i] == p);
                let y = InMemoryView {
                    path: p,
                    count: match_count(pattern, ignore_case, e.buffers[p].text) as int,
                };
                if m1.contains(y) {
                    let k = choose|k: int| 0 <= k < m1.len() && m1[k] == y;
                    assert(m2[k] == y);
                }
            } else {
                assert forall|k: int|
                    0 <= k < m2.len() && #[trigger] m2[k].path
                        == p implies e.pending_replace_in_memory.contains(m2[k]) by {
                    if k < m1.len() {
                        assert(m2[k] == m1[k]);
                    }
                }
            }
        }
    }
}

proof fn lemma_kept(t: TabsView, q: Seq<Seq<char>>, n: int, p: Seq<char>)
    requires
        0 <= n <= q.len(),
    ensures
        kept_in_memory(t, q, n).contains(p) <==> !only_previewed(t, p) && exists|i: int|
            0 <= i < n && #[trigger] q[i] == p,
    decreases n,
{
    if n > 0 {
        lemma_kept(t, q, n - 1, p);
        lemma_previewed(t, q[n - 1]);
        let a = kept_in_memory(t, q, n - 1);
        let b = kept_in_memory(t, q, n);
        if a.contains(p) {
            let k = choose|k: int| 0 <= k < a.len() && a[k] == p;
            assert(b[k] == p);
        }
        if b.contains(p) {
            let k = choose|k: int| 0 <= k < b.len() && b[k] == p;
            if k < a.len() {
                assert(a[k] == p);
            } else {
                assert(q[n - 1] == p);
            }
        }
        if q[n - 1] == p && !only_previewed(t, p) {
            assert(b[b.len() - 1] == p);
        }
    }
}

/// Replacing everything reaches every loaded buffer, whatever tabs show it:
/// where the query matches, the text is the old one with all matches
/// replaced, and nothing else changes. The buffer gets dirty, unless it is
/// only previewed; then it counts as saved, for the file is rewritten on
/// disk. All that are not only previewed are left out there.
pub proof fn every_loaded_buffer_is_replaced_in(
    s: SearchView,
    t: TabsView,
    e: EditsView,
    root: Option<Seq<char>>,
    p: Seq<char>,
)
    requires
        e.buffers.dom().finite(),
        e.has(p),
        s.query.text().len() > 0,
        compiles(
            if s.use_regex {
                s.query.text()
            } else {
                escaped(s.query.text())
            },
            !s.case_sensitive,
        ),
    ensures
        ({
            let pattern = if s.use_regex {
                s.query.text()
            } else {
                escaped(s.query.text())
            };
            let e2 = all_replaced(s, t, e, root);
            let old_text = e.buffers[p].text;
            let count = match_count(pattern, !s.case_sensitive, old_text);
            &&& e2.has(p)
            &&& count > 0 ==> e2.buffers[p].text == all_matches_replaced(
                pattern,
                !s.case_sensitive,
                old_text,
                s.replace.text(),
            )
            &&& one_replaced(
                pattern,
                !s.case_sensitive,
                s.replace.text(),
                t,
                p,
                e.buffers[p],
                e2.buffers[p],
            )
            &&& e2.buffers[p].text != old_text ==> e2.pending_replace_in_memory.contains(
                InMemoryView { path: p, count: count as int },
            )
            &&& e2.buffers.dom() == e.buffers.dom()
            &&& e2.pending_saves == e.pending_saves
            &&& root is None ==> e2.pending_replace_all == e.pending_replace_all
            &&& root is Some ==> {
                let r = e2.pending_replace_all.last();
                &&& e2.pending_replace_all == e.pending_replace_all.push(r)
                &&& r.root == root->0
                &&& r.query == s.query.text()
                &&& r.replacement == s.replace.text()
                &&& r.case_sensitive == s.case_sensitive
                &&& r.use_regex == s.use_regex
                &&& r.skip_paths.contains(p) <==> !only_previewed(t, p)
            }
        }),
{
    let pattern = pattern_of(s);
    let q = listing::listing(e.buffers.dom());
    listing::finite_sets_have_a_listing(e.buffers.dom());
    assert forall|i: int| 0 <= i < q.len() implies e.has(#[trigger] q[i]) by {
        assert(q.contains(q[i]));
    }
    assert forall|i: int, j: int| 0 <= i < j < q.len() implies #[trigger] q[i]
        != #[trigger] q[j] by {
        assert(crate::paths::path_lt(q[i], q[j]));
        crate::paths::path_order_is_total(q[i], q[j]);
    }
    assert(q.contains(p));
    let i = choose|i: int| 0 <= i < q.len() && q[i] == p;
    assert(0 <= i < q.len() && q[i] == p);
    let n = q.len() as int;
    lemma_one_replaced(pattern, !s.case_sensitive, s.replace.text(), t, e, q, n, p);
    replacing_keeps_buffers_loaded(pattern, !s.case_sensitive, s.replace.text(), t, e, q, n);
    lemma_kept(t, q, n, p);
    let e2 = all_replaced(s, t, e, root);
    if root is Some {
        let m = buffers_replaced(
            pattern,
            !s.case_sensitive,
            s.replace.text(),
            t,
            e,
            q,
            n,
        ).pending_replace_all;
        assert(e2.pending_replace_all.last() == e2.pending_replace_all[m.len() as int]);
    }
}

/// With no query, or one that is no pattern, nothing is replaced.
pub proof fn nothing_is_replaced_without_a_query(
    s: SearchView,
    t: TabsView,
    e: EditsView,
    root: Option<Seq<char>>,
)
    requires
        s.query.text().len() == 0 || (s.use_regex && !compiles(
            s.query.text(),
            !s.case_sensitive,
        )),
    ensures
        all_replaced(s, t, e, root) == e,
{
}

} // verus!
