//! Going from issue to issue: errors first, then warnings, then changes
//! that version control knows of.

use vstd::prelude::*;

use crate::alerts;
use crate::alerts::{AlertState, AlertsView};
use crate::buffers::{BufferEdits, EditsView};
use crate::chars;
use crate::chars::decimal_string;
use crate::columns;
use crate::columns::{line_grapheme_len, Cursor};
use crate::cursor;
use crate::cursor::center_on_cursor;
use crate::diagnostics::{
    Diagnostic, DiagnosticSeverity, DiagnosticsStates, GitState, IssueCategory, LineStatus,
};
use crate::jumps;
use crate::jumps::{current_position, JumpListState, JumpsView};
use crate::paths;
use crate::paths::{path_less, CanonPath};
use crate::screen;
use crate::screen::{body_rows, editor_content_cols, Terminal};
use crate::seqs;
use crate::tabs;
use crate::tabs::{open_or_focus_tab, TabView, Tabs, TabsView};
use crate::text;
use crate::text::rope_len_lines;

verus! {

// ---------------------------------------------------------------------
// Positions and their order
// ---------------------------------------------------------------------

/// A place to go to.
pub struct Pos {
    pub path: CanonPath,
    pub row: usize,
    pub col: usize,
    pub category: IssueCategory,
}

#[verifier::ext_equal]
pub struct PosView {
    pub path: Seq<char>,
    pub row: usize,
    pub col: usize,
    pub category: IssueCategory,
}

/// Where a position is, whatever the issue there.
#[verifier::ext_equal]
pub struct Key {
    pub path: Seq<char>,
    pub row: usize,
    pub col: usize,
}

impl View for Pos {
    type V = PosView;

    open spec fn view(&self) -> PosView {
        PosView { path: self.path@, row: self.row, col: self.col, category: self.category }
    }
}

pub open spec fn pos_views(s: Seq<Pos>) -> Seq<PosView> {
    Seq::new(s.len(), |i: int| s[i]@)
}

pub open spec fn key_of(p: PosView) -> Key {
    Key { path: p.path, row: p.row, col: p.col }
}

/// The order of positions: by path, row and column.
pub open spec fn key_lt(a: Key, b: Key) -> bool {
    ||| paths::path_lt(a.path, b.path)
    ||| a.path == b.path && (a.row < b.row || (a.row == b.row && a.col < b.col))
}

pub proof fn key_order_is_total(a: Key, b: Key)
    ensures
        a == b ==> !key_lt(a, b) && !key_lt(b, a),
        a != b ==> key_lt(a, b) != key_lt(b, a),
{
    paths::path_order_is_total(a.path, b.path);
}

pub proof fn key_order_is_transitive(a: Key, b: Key, c: Key)
    requires
        key_lt(a, b),
        key_lt(b, c),
    ensures
        key_lt(a, c),
{
    if paths::path_lt(a.path, b.path) && paths::path_lt(b.path, c.path) {
        paths::path_order_is_transitive(a.path, b.path, c.path);
    }
}

/// Strictly increasing.
pub open spec fn increasing(s: Seq<PosView>) -> bool {
    forall|i: int, j: int| 0 <= i < j < s.len() ==> key_lt(key_of(s[i]), key_of(s[j]))
}

pub open spec fn at(k: Key) -> spec_fn(PosView) -> bool {
    |p: PosView| key_of(p) == k
}

/// The category of the first position of a list that lies at `k`.
pub open spec fn category_at(s: Seq<PosView>, k: Key) -> Option<IssueCategory> {
    match seqs::first_index(s, at(k)) {
        Some(i) => Some(s[i].category),
        None => None,
    }
}

proof fn lemma_category_at(s: Seq<PosView>, k: Key, i: int)
    requires
        increasing(s),
        0 <= i < s.len(),
        key_of(s[i]) == k,
    ensures
        category_at(s, k) == Some(s[i].category),
{
    assert forall|j: int| 0 <= j < i implies !at(k)(#[trigger] s[j]) by {
        assert(key_lt(key_of(s[j]), key_of(s[i])));
        key_order_is_total(key_of(s[j]), k);
    }
    seqs::lemma_first_is(s, at(k), 0, i);
}

proof fn lemma_category_none(s: Seq<PosView>, k: Key)
    requires
        forall|i: int| 0 <= i < s.len() ==> key_of(#[trigger] s[i]) != k,
    ensures
        category_at(s, k) is None,
{
    assert forall|j: int| 0 <= j < s.len() implies !at(k)(#[trigger] s[j]) by {}
    seqs::lemma_first_none(s, at(k), 0);
}

proof fn lemma_category_some(s: Seq<PosView>, k: Key)
    requires
        category_at(s, k) is Some,
    ensures
        exists|i: int| 0 <= i < s.len() && key_of(#[trigger] s[i]) == k && category_at(s, k) == Some(
            s[i].category,
        ),
{
    seqs::lemma_first_from(s, at(k), 0);
    let i = seqs::first_from(s, at(k), 0);
    assert(key_of(s[i]) == k);
}

/// An increasing list is fixed by the categories it gives to places.
pub proof fn increasing_list_is_unique(a: Seq<PosView>, b: Seq<PosView>)
    requires
        increasing(a),
        increasing(b),
        forall|k: Key| #[trigger] category_at(a, k) == category_at(b, k),
    ensures
        a == b,
    decreases a.len(),
{
    if a.len() == 0 {
        if b.len() > 0 {
            lemma_category_at(b, key_of(b[0]), 0);
            lemma_category_none(a, key_of(b[0]));
            assert(category_at(a, key_of(b[0])) == category_at(b, key_of(b[0])));
        }
        assert(a =~= b);
    } else {
        let ka = key_of(a[0]);
        lemma_category_at(a, ka, 0);
        assert(category_at(b, ka) is Some);
        lemma_category_some(b, ka);
        let i = choose|i: int| 0 <= i < b.len() && key_of(#[trigger] b[i]) == ka && category_at(b, ka)
            == Some(b[i].category);
        let kb = key_of(b[0]);
        lemma_category_at(b, kb, 0);
        assert(category_at(a, kb) == category_at(b, kb));
        lemma_category_some(a, kb);
        let j = choose|j: int| 0 <= j < a.len() && key_of(#[trigger] a[j]) == kb && category_at(a, kb)
            == Some(a[j].category);
        if i > 0 {
            assert(key_lt(key_of(b[0]), key_of(b[i])));
            if j > 0 {
                assert(key_lt(key_of(a[0]), key_of(a[j])));
                key_order_is_total(ka, kb);
            } else {
                key_order_is_total(ka, kb);
            }
            assert(false);
        }
        assert(a[0] == b[0]);
        let a1 = a.skip(1);
        let b1 = b.skip(1);
        assert forall|x: int, y: int| 0 <= x < y < a1.len() implies key_lt(
            key_of(a1[x]),
            key_of(a1[y]),
        ) by {
            assert(key_lt(key_of(a[x + 1]), key_of(a[y + 1])));
        }
        assert forall|x: int, y: int| 0 <= x < y < b1.len() implies key_lt(
            key_of(b1[x]),
            key_of(b1[y]),
        ) by {
            assert(key_lt(key_of(b[x + 1]), key_of(b[y + 1])));
        }
        assert forall|k: Key| #[trigger] category_at(a1, k) == category_at(b1, k) by {
            lemma_tail_category(a, k);
            lemma_tail_category(b, k);
            assert(category_at(a, k) == category_at(b, k));
        }
        increasing_list_is_unique(a1, b1);
        assert(a =~= seq![a[0]] + a1);
        assert(b =~= seq![b[0]] + b1);
    }
}

proof fn lemma_tail_category(s: Seq<PosView>, k: Key)
    requires
        increasing(s),
        s.len() > 0,
    ensures
        category_at(s.skip(1), k) == if k == key_of(s[0]) {
            None
        } else {
            category_at(s, k)
        },
{
    let u = s.skip(1);
    assert forall|x: int, y: int| 0 <= x < y < u.len() implies key_lt(key_of(u[x]), key_of(u[y])) by {
        assert(key_lt(key_of(s[x + 1]), key_of(s[y + 1])));
    }
    if k == key_of(s[0]) {
        assert forall|i: int| 0 <= i < u.len() implies key_of(#[trigger] u[i]) != k by {
            assert(key_lt(key_of(s[0]), key_of(s[i + 1])));
            key_order_is_total(key_of(s[0]), key_of(s[i + 1]));
        }
        lemma_category_none(u, k);
    } else if category_at(s, k) is Some {
        lemma_category_some(s, k);
        let i = choose|i: int| 0 <= i < s.len() && key_of(#[trigger] s[i]) == k && category_at(s, k)
            == Some(s[i].category);
        assert(u[i - 1] == s[i]);
        lemma_category_at(u, k, i - 1);
    } else {
        assert forall|i: int| 0 <= i < u.len() implies key_of(#[trigger] u[i]) != k by {
            if key_of(u[i]) == k {
                lemma_category_at(s, k, i + 1);
            }
        }
        lemma_category_none(u, k);
    }
}

// ---------------------------------------------------------------------
// Collecting
// ---------------------------------------------------------------------

/// How a remark of a language server counts. Notes and hints do not.
pub open spec fn severity_category(s: DiagnosticSeverity) -> Option<IssueCategory> {
    match s {
        DiagnosticSeverity::Error => Some(IssueCategory::LspError),
        DiagnosticSeverity::Warning => Some(IssueCategory::LspWarning),
        _ => None,
    }
}

/// A row, pulled into the buffer if it is loaded.
pub open spec fn clamped_row(e: EditsView, path: Seq<char>, row: usize) -> usize {
    if e.has(path) && row >= text::line_count(e.buffers[path].text) {
        (text::line_count(e.buffers[path].text) - 1) as usize
    } else {
        row
    }
}

/// The positions of the first `n` remarks on a file that are in `cats`.
pub open spec fn diagnostic_positions(
    e: EditsView,
    path: Seq<char>,
    ds: Seq<Diagnostic>,
    cats: Seq<IssueCategory>,
    n: int,
) -> Seq<PosView>
    decreases n,
{
    if n <= 0 || n > ds.len() {
        seq![]
    } else {
        let rest = diagnostic_positions(e, path, ds, cats, n - 1);
        let d = ds[n - 1];
        match severity_category(d.severity) {
            Some(c) => if cats.contains(c) {
                rest.push(
                    PosView {
                        path,
                        row: clamped_row(e, path, d.start_line),
                        col: d.start_col,
                        category: c,
                    },
                )
            } else {
                rest
            },
            None => rest,
        }
    }
}

pub open spec fn is_git(c: IssueCategory) -> bool {
    c is Unstaged || c is StagedModified || c is StagedNew || c is Untracked
}

/// The positions of the first `n` changed line ranges that are in `cats`.
pub open spec fn line_positions(
    e: EditsView,
    path: Seq<char>,
    ls: Seq<LineStatus>,
    cats: Seq<IssueCategory>,
    n: int,
) -> Seq<PosView>
    decreases n,
{
    if n <= 0 || n > ls.len() {
        seq![]
    } else {
        let rest = line_positions(e, path, ls, cats, n - 1);
        let l = ls[n - 1];
        if cats.contains(l.category) {
            rest.push(
                PosView {
                    path,
                    row: clamped_row(e, path, l.start),
                    col: 0,
                    category: l.category,
                },
            )
        } else {
            rest
        }
    }
}

pub open spec fn within(cats: Seq<IssueCategory>) -> spec_fn(IssueCategory) -> bool {
    |c: IssueCategory| cats.contains(c)
}

/// The changed line ranges of a file; none where nothing is known.
pub open spec fn lines_of(git: GitState, path: Seq<char>) -> Seq<LineStatus> {
    let m = git.line_statuses.map();
    if m.dom().contains(path) {
        m[path]@
    } else {
        seq![]
    }
}

/// The positions of a file that version control names: its changed lines,
/// or its first row when none of them is in `cats`.
pub open spec fn git_positions(
    e: EditsView,
    git: GitState,
    path: Seq<char>,
    cats: Seq<IssueCategory>,
) -> Seq<PosView> {
    let file_cats = git.file_statuses.map()[path]@;
    match seqs::first_index(file_cats, within(cats)) {
        None => seq![],
        Some(i) => {
            let lines = lines_of(git, path);
            let found = line_positions(e, path, lines, cats, lines.len() as int);
            if found.len() == 0 {
                seq![PosView { path, row: 0, col: 0, category: file_cats[i] }]
            } else {
                found
            }
        },
    }
}

pub open spec fn any_git(cats: Seq<IssueCategory>) -> bool {
    exists|i: int| 0 <= i < cats.len() && is_git(#[trigger] cats[i])
}

/// All positions on a file.
pub open spec fn path_positions(
    e: EditsView,
    ds: DiagnosticsStates,
    git: GitState,
    cats: Seq<IssueCategory>,
    path: Seq<char>,
) -> Seq<PosView> {
    let d = ds.by_path.map();
    let first = if d.dom().contains(path) {
        diagnostic_positions(
            e,
            path,
            d[path].diagnostics@,
            cats,
            d[path].diagnostics.len() as int,
        )
    } else {
        seq![]
    };
    let second = if any_git(cats) && git.file_statuses.map().dom().contains(path) {
        git_positions(e, git, path, cats)
    } else {
        seq![]
    };
    first + second
}

/// The increasing list of the places with issues of a level, each once,
/// with the category of the first issue there.
pub open spec fn is_cycle(
    cycle: Seq<PosView>,
    e: EditsView,
    ds: DiagnosticsStates,
    git: GitState,
    cats: Seq<IssueCategory>,
) -> bool {
    &&& increasing(cycle)
    &&& forall|k: Key| #[trigger]
        category_at(cycle, k) == category_at(path_positions(e, ds, git, cats, k.path), k)
}

/// The list of the places with issues of a level.
pub open spec fn cycle_of(
    e: EditsView,
    ds: DiagnosticsStates,
    git: GitState,
    cats: Seq<IssueCategory>,
) -> Seq<PosView> {
    choose|c: Seq<PosView>| is_cycle(c, e, ds, git, cats)
}

proof fn lemma_cycle(
    cycle: Seq<PosView>,
    e: EditsView,
    ds: DiagnosticsStates,
    git: GitState,
    cats: Seq<IssueCategory>,
)
    requires
        is_cycle(cycle, e, ds, git, cats),
    ensures
        cycle_of(e, ds, git, cats) == cycle,
{
    let c = cycle_of(e, ds, git, cats);
    assert(is_cycle(c, e, ds, git, cats));
    assert forall|k: Key| #[trigger] category_at(c, k) == category_at(cycle, k) by {
        assert(category_at(cycle, k) == category_at(path_positions(e, ds, git, cats, k.path), k));
    }
    increasing_list_is_unique(c, cycle);
}

proof fn lemma_category_concat(a: Seq<PosView>, b: Seq<PosView>, k: Key)
    ensures
        category_at(a + b, k) == if category_at(a, k) is Some {
            category_at(a, k)
        } else {
            category_at(b, k)
        },
{
    let c = a + b;
    seqs::lemma_first_from(a, at(k), 0);
    seqs::lemma_first_from(b, at(k), 0);
    let i = seqs::first_from(a, at(k), 0);
    let j = seqs::first_from(b, at(k), 0);
    if i < a.len() {
        assert forall|x: int| 0 <= x < i implies !at(k)(#[trigger] c[x]) by {
            assert(!at(k)(a[x]));
        }
        assert(c[i] == a[i]);
        seqs::lemma_first_is(c, at(k), 0, i);
    } else {
        assert forall|x: int| 0 <= x < a.len() + j implies !at(k)(#[trigger] c[x]) by {
            if x < a.len() {
                assert(!at(k)(a[x]));
            } else {
                assert(!at(k)(b[x - a.len()]));
            }
        }
        if j < b.len() {
            assert(c[a.len() + j] == b[j]);
            seqs::lemma_first_is(c, at(k), 0, a.len() + j);
        } else {
            seqs::lemma_first_none(c, at(k), 0);
        }
    }
}

fn less(a: &Pos, b: &Pos) -> (r: bool)
    ensures
        r == key_lt(key_of(a@), key_of(b@)),
{
    path_less(a.path.as_str(), b.path.as_str()) || (a.path.same(&b.path) && (a.row < b.row || (a.row
        == b.row && a.col < b.col)))
}

/// What a list becomes when positions are added to it one by one, each
/// only where there is none yet.
pub open spec fn extends(old_list: Seq<PosView>, new_list: Seq<PosView>, added: Seq<PosView>) -> bool {
    forall|k: Key| #[trigger]
        category_at(new_list, k) == category_at(old_list + added, k)
}

/// Adds a position to an increasing list unless the list has that place.
fn insert_pos(list: &mut Vec<Pos>, p: Pos)
    requires
        increasing(pos_views(old(list)@)),
    ensures
        increasing(pos_views(final(list)@)),
        extends(pos_views(old(list)@), pos_views(final(list)@), seq![p@]),
{
    let ghost v = pos_views(list@);
    let ghost k = key_of(p@);
    let mut i: usize = 0;
    while i < list.len() && less(&list[i], &p)
        invariant
            i <= list.len(),
            v == pos_views(list@),
            k == key_of(p@),
            forall|j: int| 0 <= j < i ==> key_lt(key_of(#[trigger] v[j]), k),
        decreases list.len() - i,
    {
        assert(v[i as int] == list[i as int]@);
        i = i + 1;
    }
    if i < list.len() && !less(&p, &list[i]) {
        assert(v[i as int] == list[i as int]@);
        proof {
            key_order_is_total(key_of(v[i as int]), k);
            assert forall|x: Key| #[trigger] category_at(v, x) == category_at(v + seq![p@], x) by {
                lemma_category_concat(v, seq![p@], x);
                if x == k {
                    lemma_category_at(v, k, i as int);
                } else {
                    lemma_category_none(seq![p@], x);
                }
            }
        }
        return;
    }
    list.insert(i, p);
    proof {
        let w = pos_views(list@);
        assert(w =~= v.insert(i as int, p@));
        assert forall|a: int, b: int| 0 <= a < b < w.len() implies key_lt(key_of(w[a]), key_of(w[b])) by {
            if b < i {
                assert(key_lt(key_of(v[a]), key_of(v[b])));
            } else if b == i {
                assert(key_lt(key_of(v[a]), k));
            } else if a < i {
                assert(key_lt(key_of(v[a]), key_of(v[b - 1])));
            } else if a == i {
                assert(w[i + 1] == v[i as int]);
                assert(key_lt(k, key_of(v[i as int])));
                if b - 1 > i {
                    assert(key_lt(key_of(v[i as int]), key_of(v[b - 1])));
                    key_order_is_transitive(k, key_of(v[i as int]), key_of(v[b - 1]));
                }
            } else {
                assert(key_lt(key_of(v[a - 1]), key_of(v[b - 1])));
            }
        }
        assert forall|x: Key| #[trigger] category_at(w, x) == category_at(v + seq![p@], x) by {
            lemma_category_concat(v, seq![p@], x);
            if x == k {
                lemma_category_at(w, k, i as int);
                assert forall|j: int| 0 <= j < v.len() implies key_of(#[trigger] v[j]) != k by {
                    if j < i {
                        key_order_is_total(key_of(v[j]), k);
                    } else {
                        assert(key_lt(key_of(w[i as int]), key_of(w[j + 1])));
                        key_order_is_total(k, key_of(v[j]));
                    }
                }
                lemma_category_none(v, k);
                seqs::lemma_first_is(seq![p@], at(k), 0, 0);
            } else {
                lemma_category_none(seq![p@], x);
                if category_at(v, x) is Some {
                    lemma_category_some(v, x);
                    let j = choose|j: int| 0 <= j < v.len() && key_of(#[trigger] v[j]) == x
                        && category_at(v, x) == Some(v[j].category);
                    if j < i {
                        assert(w[j] == v[j]);
                        lemma_category_at(w, x, j);
                    } else {
                        assert(w[j + 1] == v[j]);
                        lemma_category_at(w, x, j + 1);
                    }
                } else {
                    assert forall|j: int| 0 <= j < w.len() implies key_of(#[trigger] w[j]) != x by {
                        if j < i {
                            assert(w[j] == v[j]);
                            if key_of(v[j]) == x {
                                lemma_category_at(v, x, j);
                            }
                        } else if j > i {
                            assert(w[j] == v[j - 1]);
                            if key_of(v[j - 1]) == x {
                                lemma_category_at(v, x, j - 1);
                            }
                        }
                    }
                    lemma_category_none(w, x);
                }
            }
        }
    }
}

proof fn lemma_extends_trans(
    a: Seq<PosView>,
    b: Seq<PosView>,
    c: Seq<PosView>,
    s: Seq<PosView>,
    p: PosView,
)
    requires
        extends(a, b, s),
        extends(b, c, seq![p]),
    ensures
        extends(a, c, s.push(p)),
{
    assert forall|k: Key| #[trigger] category_at(c, k) == category_at(a + s.push(p), k) by {
        assert(category_at(c, k) == category_at(b + seq![p], k));
        lemma_category_concat(b, seq![p], k);
        assert(category_at(b, k) == category_at(a + s, k));
        assert(a + s.push(p) =~= (a + s) + seq![p]);
        lemma_category_concat(a + s, seq![p], k);
    }
}

/// A row, pulled into the buffer if it is loaded.
pub fn clamp_row_to_buffer(edits: &BufferEdits, path: &str, row: usize) -> (r: usize)
    ensures
        r == clamped_row(edits@, path@, row),
{
    match edits.get(path) {
        Some(eb) => {
            let n: usize = rope_len_lines(&eb.rope);
            if row < n {
                row
            } else {
                n - 1
            }
        },
        None => row,
    }
}

fn has_category(cats: &Vec<IssueCategory>, c: IssueCategory) -> (r: bool)
    ensures
        r == cats@.contains(c),
{
    let mut i: usize = 0;
    while i < cats.len()
        invariant
            i <= cats.len(),
            forall|j: int| 0 <= j < i ==> cats@[j] != c,
        decreases cats.len() - i,
    {
        if cats[i] == c {
            assert(cats@[i as int] == c);
            return true;
        }
        i = i + 1;
    }
    false
}

/// Adds the remarks on one file.
fn add_diagnostics(
    list: &mut Vec<Pos>,
    edits: &BufferEdits,
    path: &str,
    ds: &Vec<Diagnostic>,
    cats: &Vec<IssueCategory>,
)
    requires
        increasing(pos_views(old(list)@)),
    ensures
        increasing(pos_views(final(list)@)),
        extends(
            pos_views(old(list)@),
            pos_views(final(list)@),
            diagnostic_positions(edits@, path@, ds@, cats@, ds.len() as int),
        ),
{
    let ghost v0 = pos_views(list@);
    let mut i: usize = 0;
    assert(v0 + seq![] =~= v0);
    while i < ds.len()
        invariant
            i <= ds.len(),
            increasing(pos_views(list@)),
            extends(
                v0,
                pos_views(list@),
                diagnostic_positions(edits@, path@, ds@, cats@, i as int),
            ),
        decreases ds.len() - i,
    {
        let cat = match ds[i].severity {
            DiagnosticSeverity::Error => Some(IssueCategory::LspError),
            DiagnosticSeverity::Warning => Some(IssueCategory::LspWarning),
            _ => None,
        };
        if let Some(c) = cat {
            if has_category(cats, c) {
                let row: usize = clamp_row_to_buffer(edits, path, ds[i].start_line);
                let p = Pos { path: CanonPath::new(path), row, col: ds[i].start_col, category: c };
                let ghost v1 = pos_views(list@);
                let ghost pv = p@;
                insert_pos(list, p);
                proof {
                    lemma_extends_trans(
                        v0,
                        v1,
                        pos_views(list@),
                        diagnostic_positions(edits@, path@, ds@, cats@, i as int),
                        pv,
                    );
                }
            }
        }
        i = i + 1;
    }
}

proof fn lemma_extends_concat(a: Seq<PosView>, b: Seq<PosView>, s: Seq<PosView>, k: Key)
    requires
        extends(a, b, s),
    ensures
        category_at(b, k) == if category_at(a, k) is Some {
            category_at(a, k)
        } else {
            category_at(s, k)
        },
{
    assert(category_at(b, k) == category_at(a + s, k));
    lemma_category_concat(a, s, k);
}

/// Adds the changed lines of one file.
fn add_lines(
    list: &mut Vec<Pos>,
    edits: &BufferEdits,
    path: &str,
    ls: &Vec<LineStatus>,
    cats: &Vec<IssueCategory>,
) -> (found: bool)
    requires
        increasing(pos_views(old(list)@)),
    ensures
        increasing(pos_views(final(list)@)),
        extends(
            pos_views(old(list)@),
            pos_views(final(list)@),
            line_positions(edits@, path@, ls@, cats@, ls.len() as int),
        ),
        found == (line_positions(edits@, path@, ls@, cats@, ls.len() as int).len() > 0),
        !found ==> final(list)@ == old(list)@,
{
    let ghost v0 = pos_views(list@);
    let mut i: usize = 0;
    let mut found: bool = false;
    assert(v0 + seq![] =~= v0);
    while i < ls.len()
        invariant
            i <= ls.len(),
            v0 == pos_views(old(list)@),
            increasing(pos_views(list@)),
            found == (line_positions(edits@, path@, ls@, cats@, i as int).len() > 0),
            !found ==> list@ == old(list)@,
            extends(v0, pos_views(list@), line_positions(edits@, path@, ls@, cats@, i as int)),
        decreases ls.len() - i,
    {
        let c = ls[i].category;
        if has_category(cats, c) {
            let row: usize = clamp_row_to_buffer(edits, path, ls[i].start);
            let p = Pos { path: CanonPath::new(path), row, col: 0, category: c };
            let ghost v1 = pos_views(list@);
            let ghost pv = p@;
            insert_pos(list, p);
            found = true;
            proof {
                lemma_extends_trans(
                    v0,
                    v1,
                    pos_views(list@),
                    line_positions(edits@, path@, ls@, cats@, i as int),
                    pv,
                );
            }
        }
        i = i + 1;
    }
    found
}

/// Adds what version control says of one file.
fn add_git(
    list: &mut Vec<Pos>,
    edits: &BufferEdits,
    git: &GitState,
    path: &str,
    file_cats: &Vec<IssueCategory>,
    cats: &Vec<IssueCategory>,
)
    requires
        increasing(pos_views(old(list)@)),
        git.file_statuses.map().dom().contains(path@),
        *file_cats == git.file_statuses.map()[path@],
    ensures
        increasing(pos_views(final(list)@)),
        extends(
            pos_views(old(list)@),
            pos_views(final(list)@),
            git_positions(edits@, *git, path@, cats@),
        ),
{
    let ghost v0 = pos_views(list@);
    assert(v0 + seq![] =~= v0);
    let mut i: usize = 0;
    while i < file_cats.len() && !has_category(cats, file_cats[i])
        invariant
            i <= file_cats.len(),
            forall|j: int| 0 <= j < i ==> !within(cats@)(#[trigger] file_cats@[j]),
        decreases file_cats.len() - i,
    {
        i = i + 1;
    }
    if i >= file_cats.len() {
        proof {
            seqs::lemma_first_none(file_cats@, within(cats@), 0);
        }
        return;
    }
    proof {
        seqs::lemma_first_is(file_cats@, within(cats@), 0, i as int);
    }
    let found: bool = match git.line_statuses.get(path) {
        Some(ls) => add_lines(list, edits, path, ls, cats),
        None => false,
    };
    if !found {
        let ghost pv = PosView { path: path@, row: 0, col: 0, category: file_cats@[i as int] };
        insert_pos(
            list,
            Pos { path: CanonPath::new(path), row: 0, col: 0, category: file_cats[i] },
        );
    }
}

/// Collects the places with issues of a level.
fn collect_positions(
    edits: &BufferEdits,
    diagnostics: &DiagnosticsStates,
    git: &GitState,
    cats: &Vec<IssueCategory>,
) -> (list: Vec<Pos>)
    ensures
        is_cycle(pos_views(list@), edits@, *diagnostics, *git, cats@),
{
    let mut list: Vec<Pos> = Vec::new();
    let ghost e = edits@;
    let ghost dm = diagnostics.by_path.map();
    let ghost gm = git.file_statuses.map();
    let paths = diagnostics.by_path.keys();
    let mut i: usize = 0;
    proof {
        assert forall|k: Key| #[trigger] category_at(pos_views(list@), k) is None by {
            lemma_category_none(pos_views(list@), k);
        }
    }
    while i < paths.len()
        invariant
            i <= paths.len(),
            e == edits@,
            dm == diagnostics.by_path.map(),
            forall|k: Seq<char>| #[trigger]
                dm.dom().contains(k) <==> exists|j: int|
                    0 <= j < paths.len() && #[trigger] paths[j]@ == k,
            forall|a: int, b: int| 0 <= a < b < paths.len() ==> paths[a]@ != paths[b]@,
            increasing(pos_views(list@)),
            forall|k: Key| #[trigger]
                category_at(pos_views(list@), k) == if exists|j: int|
                    0 <= j < i && #[trigger] paths[j]@ == k.path {
                    category_at(
                        diagnostic_positions(
                            e,
                            k.path,
                            dm[k.path].diagnostics@,
                            cats@,
                            dm[k.path].diagnostics.len() as int,
                        ),
                        k,
                    )
                } else {
                    None
                },
        decreases paths.len() - i,
    {
        let ghost v1 = pos_views(list@);
        let path = paths[i].as_str();
        assert(dm.dom().contains(paths[i as int]@));
        let bd = diagnostics.by_path.get(path).unwrap();
        add_diagnostics(&mut list, edits, path, &bd.diagnostics, cats);
        proof {
            let v2 = pos_views(list@);
            let s = diagnostic_positions(
                e,
                path@,
                dm[path@].diagnostics@,
                cats@,
                dm[path@].diagnostics.len() as int,
            );
            lemma_diagnostic_paths(
                e,
                path@,
                dm[path@].diagnostics@,
                cats@,
                dm[path@].diagnostics.len() as int,
            );
            assert forall|k: Key| #[trigger] category_at(v2, k) == if exists|j: int|
                0 <= j < i + 1 && #[trigger] paths[j]@ == k.path {
                category_at(
                    diagnostic_positions(
                        e,
                        k.path,
                        dm[k.path].diagnostics@,
                        cats@,
                        dm[k.path].diagnostics.len() as int,
                    ),
                    k,
                )
            } else {
                None
            } by {
                lemma_extends_concat(v1, v2, s, k);
                if k.path == path@ {
                    assert(paths[i as int]@ == k.path);
                    assert(!(exists|j: int| 0 <= j < i && #[trigger] paths[j]@ == k.path));
                    assert(category_at(v1, k) is None);
                } else {
                    lemma_category_none(s, k);
                    assert(category_at(v1, k) == category_at(v2, k));
                    if exists|j: int| 0 <= j < i + 1 && #[trigger] paths[j]@ == k.path {
                        let j = choose|j: int| 0 <= j < i + 1 && #[trigger] paths[j]@ == k.path;
                        assert(j < i);
                    }
                }
            }
        }
        i = i + 1;
    }
    proof {
        assert forall|k: Key| #[trigger] category_at(pos_views(list@), k) == category_at(
            diagnostics_on(e, *diagnostics, cats@, k.path),
            k,
        ) by {
            if !dm.dom().contains(k.path) {
                lemma_category_none(seq![], k);
            }
        }
    }
    let git_level: bool = has_git(cats);
    if git_level {
        let files = git.file_statuses.keys();
        let mut n: usize = 0;
        while n < files.len()
            invariant
                n <= files.len(),
                e == edits@,
                gm == git.file_statuses.map(),
                forall|k: Seq<char>| #[trigger]
                    gm.dom().contains(k) <==> exists|j: int|
                        0 <= j < files.len() && #[trigger] files[j]@ == k,
                forall|a: int, b: int| 0 <= a < b < files.len() ==> files[a]@ != files[b]@,
                increasing(pos_views(list@)),
                forall|k: Key| #[trigger]
                    category_at(pos_views(list@), k) == category_at(
                        diagnostics_on(e, *diagnostics, cats@, k.path) + if exists|j: int|
                            0 <= j < n && #[trigger] files[j]@ == k.path {
                            git_positions(e, *git, k.path, cats@)
                        } else {
                            seq![]
                        },
                        k,
                    ),
            decreases files.len() - n,
        {
            let ghost v1 = pos_views(list@);
            let path = files[n].as_str();
            assert(gm.dom().contains(files[n as int]@));
            let fc = git.file_statuses.get(path).unwrap();
            add_git(&mut list, edits, git, path, fc, cats);
            proof {
                let v2 = pos_views(list@);
                let s = git_positions(e, *git, path@, cats@);
                lemma_git_paths(e, *git, path@, cats@);
                assert forall|k: Key| #[trigger] category_at(v2, k) == category_at(
                    diagnostics_on(e, *diagnostics, cats@, k.path) + if exists|j: int|
                        0 <= j < n + 1 && #[trigger] files[j]@ == k.path {
                        git_positions(e, *git, k.path, cats@)
                    } else {
                        seq![]
                    },
                    k,
                ) by {
                    let d = diagnostics_on(e, *diagnostics, cats@, k.path);
                    lemma_extends_concat(v1, v2, s, k);
                    lemma_category_concat(d, s, k);
                    lemma_category_concat(d, seq![], k);
                    if k.path == path@ {
                        assert(files[n as int]@ == k.path);
                        assert(!(exists|j: int| 0 <= j < n && #[trigger] files[j]@ == k.path));
                        lemma_category_none(seq![], k);
                        assert(category_at(v1, k) == category_at(d + seq![], k));
                    } else {
                        lemma_category_none(s, k);
                        assert(category_at(v1, k) == category_at(v2, k));
                        if exists|j: int| 0 <= j < n + 1 && #[trigger] files[j]@ == k.path {
                            let j = choose|j: int| 0 <= j < n + 1 && #[trigger] files[j]@ == k.path;
                            assert(j < n);
                        }
                    }
                }
            }
            n = n + 1;
        }
    }
    proof {
        assert forall|k: Key| #[trigger] category_at(pos_views(list@), k) == category_at(
            path_positions(e, *diagnostics, *git, cats@, k.path),
            k,
        ) by {
            let d = diagnostics_on(e, *diagnostics, cats@, k.path);
            assert(d + seq![] =~= d);
            if git_level {
                assert(gm.dom().contains(k.path) || !gm.dom().contains(k.path));
            }
        }
    }
    list
}

/// The remarks on a file that count.
pub open spec fn diagnostics_on(
    e: EditsView,
    ds: DiagnosticsStates,
    cats: Seq<IssueCategory>,
    path: Seq<char>,
) -> Seq<PosView> {
    let d = ds.by_path.map();
    if d.dom().contains(path) {
        diagnostic_positions(
            e,
            path,
            d[path].diagnostics@,
            cats,
            d[path].diagnostics.len() as int,
        )
    } else {
        seq![]
    }
}

proof fn lemma_diagnostic_paths(
    e: EditsView,
    path: Seq<char>,
    ds: Seq<Diagnostic>,
    cats: Seq<IssueCategory>,
    n: int,
)
    ensures
        forall|i: int|
            0 <= i < diagnostic_positions(e, path, ds, cats, n).len() ==> (
            #[trigger] diagnostic_positions(e, path, ds, cats, n)[i]).path == path,
    decreases n,
{
    if n > 0 && n <= ds.len() {
        lemma_diagnostic_paths(e, path, ds, cats, n - 1);
    }
}

proof fn lemma_line_paths(
    e: EditsView,
    path: Seq<char>,
    ls: Seq<LineStatus>,
    cats: Seq<IssueCategory>,
    n: int,
)
    ensures
        forall|i: int|
            0 <= i < line_positions(e, path, ls, cats, n).len() ==> (#[trigger] line_positions(
                e,
                path,
                ls,
                cats,
                n,
            )[i]).path == path,
    decreases n,
{
    if n > 0 && n <= ls.len() {
        lemma_line_paths(e, path, ls, cats, n - 1);
    }
}

proof fn lemma_git_paths(e: EditsView, git: GitState, path: Seq<char>, cats: Seq<IssueCategory>)
    ensures
        forall|i: int|
            0 <= i < git_positions(e, git, path, cats).len() ==> (#[trigger] git_positions(
                e,
                git,
                path,
                cats,
            )[i]).path == path,
{
    let lines = lines_of(git, path);
    lemma_line_paths(e, path, lines, cats, lines.len() as int);
}

fn has_git(cats: &Vec<IssueCategory>) -> (r: bool)
    ensures
        r == any_git(cats@),
{
    let mut i: usize = 0;
    while i < cats.len()
        invariant
            i <= cats.len(),
            forall|j: int| 0 <= j < i ==> !is_git(#[trigger] cats@[j]),
        decreases cats.len() - i,
    {
        match cats[i] {
            IssueCategory::Unstaged
            | IssueCategory::StagedModified
            | IssueCategory::StagedNew
            | IssueCategory::Untracked => {
                assert(is_git(cats@[i as int]));
                return true;
            },
            _ => {},
        }
        i = i + 1;
    }
    false
}

// ---------------------------------------------------------------------
// Choosing
// ---------------------------------------------------------------------

pub open spec fn past(k: Key) -> spec_fn(PosView) -> bool {
    |p: PosView| key_lt(k, key_of(p))
}

/// The last index below `n` whose position lies before `k`, or -1.
pub open spec fn last_before(s: Seq<PosView>, k: Key, n: int) -> int
    decreases n,
{
    if n <= 0 || n > s.len() {
        -1
    } else if key_lt(key_of(s[n - 1]), k) {
        n - 1
    } else {
        last_before(s, k, n - 1)
    }
}

/// The next position after the cursor in the cycle, or the one before it;
/// past an end the cycle goes on at the other.
pub open spec fn picked(s: Seq<PosView>, cur: Option<Key>, forward: bool) -> int {
    match cur {
        None => 0,
        Some(k) => if forward {
            let i = seqs::first_from(s, past(k), 0);
            if i < s.len() {
                i
            } else {
                0
            }
        } else {
            let i = last_before(s, k, s.len() as int);
            if i >= 0 {
                i
            } else {
                s.len() - 1
            }
        },
    }
}

/// Where the cursor of the active tab is.
pub open spec fn cursor_key(tabs: TabsView) -> Option<Key> {
    match tabs.active_index() {
        Some(i) => Some(
            Key {
                path: tabs.open[i].path,
                row: tabs.open[i].cursor.line,
                col: tabs.open[i].cursor.col,
            },
        ),
        None => None,
    }
}

/// The index of the position to go to.
#[verifier::loop_isolation(false)]
pub fn pick_target_index(
    positions: &Vec<Pos>,
    cur: Option<(CanonPath, usize, usize)>,
    forward: bool,
) -> (r: usize)
    requires
        positions.len() > 0,
    ensures
        r == picked(
            pos_views(positions@),
            match cur {
                Some(c) => Some(Key { path: c.0@, row: c.1, col: c.2 }),
                None => None,
            },
            forward,
        ),
        r < positions.len(),
{
    let ghost v = pos_views(positions@);
    let (path, row, col) = match cur {
        Some(c) => c,
        None => {
            return 0;
        },
    };
    let ghost k = Key { path: path@, row, col };
    let here = Pos { path, row, col, category: IssueCategory::LspError };
    let n: usize = positions.len();
    if forward {
        let mut i: usize = 0;
        while i < n
            invariant
                i <= n,
                n == positions.len(),
                v == pos_views(positions@),
                k == key_of(here@),
                forall|j: int| 0 <= j < i ==> !past(k)(#[trigger] v[j]),
            decreases n - i,
        {
            assert(v[i as int] == positions[i as int]@);
            if less(&here, &positions[i]) {
                proof {
                    seqs::lemma_first_is(v, past(k), 0, i as int);
                }
                return i;
            }
            i = i + 1;
        }
        proof {
            seqs::lemma_first_none(v, past(k), 0);
        }
        0
    } else {
        let mut i: usize = n;
        while i > 0
            invariant
                i <= n,
                n == positions.len(),
                n > 0,
                v == pos_views(positions@),
                k == key_of(here@),
                last_before(v, k, n as int) == last_before(v, k, i as int),
            decreases i,
        {
            assert(v[i - 1] == positions[i - 1]@);
            if less(&positions[i - 1], &here) {
                return i - 1;
            }
            i = i - 1;
        }
        n - 1
    }
}

/// Where to go and what to say of it.
pub struct NavOutcome {
    pub target_path: CanonPath,
    pub target_row: usize,
    pub target_col: usize,
    pub category: IssueCategory,
    /// The place in the cycle, from one.
    pub position: usize,
    pub total: usize,
}

#[verifier::ext_equal]
pub struct NavView {
    pub target_path: Seq<char>,
    pub target_row: usize,
    pub target_col: usize,
    pub category: IssueCategory,
    pub position: int,
    pub total: int,
}

impl View for NavOutcome {
    type V = NavView;

    open spec fn view(&self) -> NavView {
        NavView {
            target_path: self.target_path@,
            target_row: self.target_row,
            target_col: self.target_col,
            category: self.category,
            position: self.position as int,
            total: self.total as int,
        }
    }
}

/// The tiers of issues, most pressing first.
pub open spec fn level(n: int) -> Seq<IssueCategory> {
    if n == 0 {
        seq![IssueCategory::LspError]
    } else if n == 1 {
        seq![IssueCategory::LspWarning]
    } else if n == 2 {
        seq![IssueCategory::Unstaged, IssueCategory::Untracked]
    } else {
        seq![IssueCategory::StagedModified, IssueCategory::StagedNew]
    }
}

/// The number of tiers.
pub const LEVELS: usize = 4;

fn level_categories(n: usize) -> (v: Vec<IssueCategory>)
    ensures
        v@ == level(n as int),
{
    let mut v: Vec<IssueCategory> = Vec::new();
    if n == 0 {
        v.push(IssueCategory::LspError);
    } else if n == 1 {
        v.push(IssueCategory::LspWarning);
    } else if n == 2 {
        v.push(IssueCategory::Unstaged);
        v.push(IssueCategory::Untracked);
    } else {
        v.push(IssueCategory::StagedModified);
        v.push(IssueCategory::StagedNew);
    }
    assert(v@ =~= level(n as int));
    v
}

/// What a step through the cycle of one tier leads to. Nothing when the
/// tier is empty.
pub open spec fn scanned(
    tabs: TabsView,
    e: EditsView,
    ds: DiagnosticsStates,
    git: GitState,
    forward: bool,
    cats: Seq<IssueCategory>,
) -> Option<NavView> {
    let c = cycle_of(e, ds, git, cats);
    if c.len() == 0 {
        None
    } else {
        let i = picked(c, cursor_key(tabs), forward);
        Some(
            NavView {
                target_path: c[i].path,
                target_row: c[i].row,
                target_col: c[i].col,
                category: c[i].category,
                position: i + 1,
                total: c.len() as int,
            },
        )
    }
}

/// What a step leads to: it stays in the first tier from `n` on that is
/// not empty.
pub open spec fn navigation_from(
    tabs: TabsView,
    e: EditsView,
    ds: DiagnosticsStates,
    git: GitState,
    forward: bool,
    n: int,
) -> Option<NavView>
    decreases LEVELS - n,
{
    if n < 0 || n >= LEVELS {
        None
    } else {
        let s = scanned(tabs, e, ds, git, forward, level(n));
        if s is Some {
            s
        } else {
            navigation_from(tabs, e, ds, git, forward, n + 1)
        }
    }
}

pub open spec fn navigation(
    tabs: TabsView,
    e: EditsView,
    ds: DiagnosticsStates,
    git: GitState,
    forward: bool,
) -> Option<NavView> {
    navigation_from(tabs, e, ds, git, forward, 0)
}

fn scan_level(
    tabs: &Tabs,
    edits: &BufferEdits,
    diagnostics: &DiagnosticsStates,
    git: &GitState,
    forward: bool,
    cats: &Vec<IssueCategory>,
) -> (r: Option<NavOutcome>)
    ensures
        r is Some <==> scanned(tabs@, edits@, *diagnostics, *git, forward, cats@) is Some,
        r is Some ==> r->0@ == scanned(tabs@, edits@, *diagnostics, *git, forward, cats@)->0,
{
    let positions = collect_positions(edits, diagnostics, git, cats);
    let ghost v = pos_views(positions@);
    proof {
        lemma_cycle(v, edits@, *diagnostics, *git, cats@);
    }
    if positions.len() == 0 {
        return None;
    }
    let cur = match tabs.active_index() {
        Some(i) => {
            let t = tabs.at(i);
            Some((t.path.copy(), t.cursor.line, t.cursor.col))
        },
        None => None,
    };
    let i: usize = pick_target_index(&positions, cur, forward);
    assert(v[i as int] == positions[i as int]@);
    Some(
        NavOutcome {
            target_path: positions[i].path.copy(),
            target_row: positions[i].row,
            target_col: positions[i].col,
            category: positions[i].category,
            position: i + 1,
            total: positions.len(),
        },
    )
}

/// Finds the issue to go to.
pub fn compute_navigation(
    tabs: &Tabs,
    edits: &BufferEdits,
    diagnostics: &DiagnosticsStates,
    git: &GitState,
    forward: bool,
) -> (r: Option<NavOutcome>)
    ensures
        r is Some <==> navigation(tabs@, edits@, *diagnostics, *git, forward) is Some,
        r is Some ==> r->0@ == navigation(tabs@, edits@, *diagnostics, *git, forward)->0,
{
    let mut n: usize = 0;
    while n < LEVELS
        invariant
            n <= LEVELS,
            navigation(tabs@, edits@, *diagnostics, *git, forward) == navigation_from(
                tabs@,
                edits@,
                *diagnostics,
                *git,
                forward,
                n as int,
            ),
        decreases LEVELS - n,
    {
        let cats = level_categories(n);
        let r = scan_level(tabs, edits, diagnostics, git, forward, &cats);
        if r.is_some() {
            return r;
        }
        n = n + 1;
    }
    None
}

// ---------------------------------------------------------------------
// Going there
// ---------------------------------------------------------------------

/// What an issue is called.
pub open spec fn label(c: IssueCategory) -> Seq<char> {
    match c {
        IssueCategory::LspError => "Error"@,
        IssueCategory::LspWarning => "Warning"@,
        IssueCategory::Unstaged => "Unstaged"@,
        IssueCategory::StagedModified => "Staged"@,
        IssueCategory::StagedNew => "Staged new"@,
        IssueCategory::Untracked => "Untracked"@,
    }
}

fn label_of(c: IssueCategory) -> (s: &'static str)
    ensures
        s@ == label(c),
{
    match c {
        IssueCategory::LspError => "Error",
        IssueCategory::LspWarning => "Warning",
        IssueCategory::Unstaged => "Unstaged",
        IssueCategory::StagedModified => "Staged",
        IssueCategory::StagedNew => "Staged new",
        IssueCategory::Untracked => "Untracked",
    }
}

/// What the user is told.
pub open spec fn nav_message(o: NavView) -> Seq<char> {
    " Jumped to "@ + label(o.category) + " "@ + chars::decimal(o.position as nat) + "/"@
        + chars::decimal(o.total as nat)
}

/// The tabs after a landing at a place of a file: with its buffer loaded in
/// a tab the cursor goes there and to the middle of the view; otherwise a
/// tab is opened, which takes the cursor there once it has loaded.
pub open spec fn landed_at(
    tabs: TabsView,
    e: EditsView,
    path: Seq<char>,
    row: usize,
    col: usize,
    term: Terminal,
    side_visible: bool,
) -> TabsView {
    if tabs.find_path(path) is Some && e.has(path) {
        let i = tabs.find_path(path)->0;
        let t = tabs.open[i];
        let text = e.buffers[path].text;
        let line = columns::clamped_line(text, row as int);
        let n = columns::col_count(text, line);
        let c = if col < n {
            col
        } else {
            n as usize
        };
        let cursor = Cursor { line: line as usize, col: c, preferred_col: c };
        let scroll = cursor::centered(
            t.scroll,
            cursor,
            screen::body_rows_of(term),
            text,
            screen::content_cols_of(term, side_visible),
        );
        TabsView {
            active: Some(t.id),
            ..tabs.with_tab(i, TabView { cursor, scroll, ..t })
        }
    } else {
        let o = tabs::opened(tabs, path, true);
        match o.find_path(path) {
            Some(i) => o.with_tab(
                i,
                TabView {
                    pending_cursor: Some(Cursor { line: row, col, preferred_col: col }),
                    ..o.open[i]
                },
            ),
            None => o,
        }
    }
}

/// Lands at a place of a file.
pub fn land_at(
    tabs: &mut Tabs,
    edits: &BufferEdits,
    path: &CanonPath,
    row: usize,
    col: usize,
    terminal: &Terminal,
    side_visible: bool,
)
    ensures
        final(tabs)@ == landed_at(
            old(tabs)@,
            edits@,
            path@,
            row,
            col,
            *terminal,
            side_visible,
        ),
{
    if let Some(i) = tabs.find_path(path.as_str()) {
        if let Some(eb) = edits.get(path.as_str()) {
            let count: usize = rope_len_lines(&eb.rope);
            let line: usize = if row < count { row } else { count - 1 };
            let n: usize = line_grapheme_len(&eb.rope, line);
            let c: usize = if col < n { col } else { n };
            let rows: usize = body_rows(terminal);
            let cols: usize = editor_content_cols(terminal, side_visible);
            let mut t = tabs.at(i).copy();
            t.cursor = Cursor { line, col: c, preferred_col: c };
            t.scroll = center_on_cursor(t.scroll, t.cursor, rows, &eb.rope, cols);
            tabs.active = Some(t.id);
            tabs.set(i, t);
            return;
        }
    }
    open_or_focus_tab(tabs, path, true);
    if let Some(i) = tabs.find_path(path.as_str()) {
        let mut t = tabs.at(i).copy();
        t.pending_cursor = Some(Cursor { line: row, col, preferred_col: col });
        tabs.set(i, t);
    }
}

/// What a step to the next or previous issue does. Without an active tab
/// nothing happens.
pub open spec fn issue_visited(
    tabs: TabsView,
    e: EditsView,
    ds: DiagnosticsStates,
    git: GitState,
    j: JumpsView,
    a: AlertsView,
    term: Terminal,
    side_visible: bool,
    forward: bool,
    now: u64,
) -> (TabsView, JumpsView, AlertsView) {
    match (jumps::position(tabs), navigation(tabs, e, ds, git, forward)) {
        (Some(here), Some(o)) => (
            landed_at(tabs, e, o.target_path, o.target_row, o.target_col, term, side_visible),
            jumps::recorded(j, here),
            alerts::informed(a, nav_message(o), now),
        ),
        _ => (tabs, j, a),
    }
}

fn nav_issue(
    tabs: &mut Tabs,
    edits: &BufferEdits,
    diagnostics: &DiagnosticsStates,
    git: &GitState,
    jumps: &mut JumpListState,
    alerts: &mut AlertState,
    terminal: &Terminal,
    side_visible: bool,
    forward: bool,
    now: u64,
)
    ensures
        (final(tabs)@, final(jumps)@, final(alerts)@) == issue_visited(
            old(tabs)@,
            edits@,
            *diagnostics,
            *git,
            old(jumps)@,
            old(alerts)@,
            *terminal,
            side_visible,
            forward,
            now,
        ),
{
    let here = match current_position(tabs) {
        Some(p) => p,
        None => {
            return;
        },
    };
    let o = match compute_navigation(tabs, edits, diagnostics, git, forward) {
        Some(o) => o,
        None => {
            return;
        },
    };
    jumps.record(here);
    let mut msg = " Jumped to ".to_owned();
    msg.push_str(label_of(o.category));
    msg.push_str(" ");
    msg.push_str(decimal_string(o.position).as_str());
    msg.push_str("/");
    msg.push_str(decimal_string(o.total).as_str());
    land_at(tabs, edits, &o.target_path, o.target_row, o.target_col, terminal, side_visible);
    alerts.set_info(msg, now);
}

/// Goes to the next issue of the most pressing tier.
pub fn next_issue_active(
    tabs: &mut Tabs,
    edits: &BufferEdits,
    diagnostics: &DiagnosticsStates,
    git: &GitState,
    jumps: &mut JumpListState,
    alerts: &mut AlertState,
    terminal: &Terminal,
    side_visible: bool,
    now: u64,
)
    ensures
        (final(tabs)@, final(jumps)@, final(alerts)@) == issue_visited(
            old(tabs)@,
            edits@,
            *diagnostics,
            *git,
            old(jumps)@,
            old(alerts)@,
            *terminal,
            side_visible,
            true,
            now,
        ),
{
    nav_issue(tabs, edits, diagnostics, git, jumps, alerts, terminal, side_visible, true, now);
}

/// Goes to the previous issue of the most pressing tier.
pub fn prev_issue_active(
    tabs: &mut Tabs,
    edits: &BufferEdits,
    diagnostics: &DiagnosticsStates,
    git: &GitState,
    jumps: &mut JumpListState,
    alerts: &mut AlertState,
    terminal: &Terminal,
    side_visible: bool,
    now: u64,
)
    ensures
        (final(tabs)@, final(jumps)@, final(alerts)@) == issue_visited(
            old(tabs)@,
            edits@,
            *diagnostics,
            *git,
            old(jumps)@,
            old(alerts)@,
            *terminal,
            side_visible,
            false,
            now,
        ),
{
    nav_issue(tabs, edits, diagnostics, git, jumps, alerts, terminal, side_visible, false, now);
}

// ---------------------------------------------------------------------
// Laws
// ---------------------------------------------------------------------

/// Places in one file come in the order of their rows, and in a row of
/// their columns.
pub proof fn places_in_a_file_go_by_row_and_column(path: Seq<char>, r1: usize, c1: usize, r2: usize, c2: usize)
    ensures
        key_lt(Key { path, row: r1, col: c1 }, Key { path, row: r2, col: c2 }) <==> r1 < r2 || (r1
            == r2 && c1 < c2),
{
    paths::path_order_is_total(path, path);
}

/// A position stands for a remark: it is at its start, pulled into the text.
pub open spec fn stands_for(e: EditsView, path: Seq<char>, p: PosView, d: Diagnostic) -> bool {
    let n = text::line_count(e.buffers[path].text);
    &&& p.path == path
    &&& p.col == d.start_col
    &&& !e.has(path) || d.start_line < n ==> p.row == d.start_line
    &&& e.has(path) && d.start_line >= n && n <= usize::MAX ==> p.row == n - 1
}

proof fn lemma_remarks(
    e: EditsView,
    path: Seq<char>,
    ds: Seq<Diagnostic>,
    cats: Seq<IssueCategory>,
    n: int,
)
    requires
        0 <= n <= ds.len(),
    ensures
        ({
            let ps = diagnostic_positions(e, path, ds, cats, n);
            &&& forall|i: int|
                0 <= i < n && severity_category(#[trigger] ds[i].severity) is Some
                    && cats.contains(severity_category(ds[i].severity)->0) ==> exists|j: int|
                    0 <= j < ps.len() && stands_for(e, path, #[trigger] ps[j], ds[i])
            &&& forall|j: int|
                0 <= j < ps.len() ==> cats.contains((#[trigger] ps[j]).category) && exists|i: int|
                    0 <= i < n && #[trigger] stands_for(e, path, ps[j], ds[i])
                        && severity_category(ds[i].severity) == Some(ps[j].category)
        }),
    decreases n,
{
    if n > 0 {
        lemma_remarks(e, path, ds, cats, n - 1);
        text::text_has_a_line(e.buffers[path].text);
        let rest = diagnostic_positions(e, path, ds, cats, n - 1);
        let ps = diagnostic_positions(e, path, ds, cats, n);
        let m = rest.len() as int;
        assert forall|i: int|
            0 <= i < n && severity_category(#[trigger] ds[i].severity) is Some && cats.contains(
                severity_category(ds[i].severity)->0,
            ) implies exists|j: int|
            0 <= j < ps.len() && stands_for(e, path, #[trigger] ps[j], ds[i]) by {
            if i < n - 1 {
                let j = choose|j: int|
                    0 <= j < rest.len() && stands_for(e, path, #[trigger] rest[j], ds[i]);
                assert(ps[j] == rest[j]);
            } else {
                assert(stands_for(e, path, ps[m], ds[i]));
            }
        }
        assert forall|j: int| 0 <= j < ps.len() implies cats.contains((#[trigger] ps[j]).category)
            && exists|i: int|
            0 <= i < n && #[trigger] stands_for(e, path, ps[j], ds[i]) && severity_category(
                ds[i].severity,
            ) == Some(ps[j].category) by {
            if j < m {
                assert(ps[j] == rest[j]);
                let i = choose|i: int|
                    0 <= i < n - 1 && #[trigger] stands_for(e, path, rest[j], ds[i])
                        && severity_category(ds[i].severity) == Some(rest[j].category);
                assert(stands_for(e, path, ps[j], ds[i]));
            } else {
                assert(stands_for(e, path, ps[j], ds[n - 1]));
            }
        }
    }
}

/// The cycle of a tier of remarks holds the place of every remark of that
/// severity, and no others; it goes up by file, row and column and has no
/// place twice.
pub proof fn every_remark_is_in_its_cycle(
    c: Seq<PosView>,
    e: EditsView,
    ds: DiagnosticsStates,
    git: GitState,
    severity: DiagnosticSeverity,
    category: IssueCategory,
    path: Seq<char>,
)
    requires
        (severity == DiagnosticSeverity::Error && category == IssueCategory::LspError) || (severity
            == DiagnosticSeverity::Warning && category == IssueCategory::LspWarning),
        is_cycle(c, e, ds, git, seq![category]),
        ds.by_path.map().dom().contains(path),
    ensures
        ({
            let r = ds.by_path.map()[path].diagnostics@;
            &&& increasing(c)
            &&& forall|i: int|
                0 <= i < r.len() && (#[trigger] r[i]).severity == severity ==> exists|j: int|
                    0 <= j < c.len() && stands_for(e, path, #[trigger] c[j], r[i])
            &&& forall|j: int|
                0 <= j < c.len() && (#[trigger] c[j]).path == path ==> exists|i: int|
                    0 <= i < r.len() && (#[trigger] r[i]).severity == severity && stands_for(
                        e,
                        path,
                        c[j],
                        r[i],
                    )
        }),
{
    let cats = seq![category];
    let r = ds.by_path.map()[path].diagnostics@;
    let n = r.len() as int;
    let ps = diagnostic_positions(e, path, r, cats, n);
    lemma_remarks(e, path, r, cats, n);
    assert(cats[0] == category);
    assert(cats.contains(category));
    assert(!any_git(cats)) by {
        if any_git(cats) {
            let x = choose|x: int| 0 <= x < cats.len() && is_git(#[trigger] cats[x]);
            assert(cats[x] == category);
        }
    }
    assert(path_positions(e, ds, git, cats, path) =~= ps);
    assert forall|i: int| 0 <= i < n && (#[trigger] r[i]).severity == severity implies exists|j: int|
        0 <= j < c.len() && stands_for(e, path, #[trigger] c[j], r[i]) by {
        assert(severity_category(r[i].severity) == Some(category));
        let x = choose|x: int| 0 <= x < ps.len() && stands_for(e, path, #[trigger] ps[x], r[i]);
        let k = key_of(ps[x]);
        if category_at(ps, k) is None {
            seqs::lemma_first_from(ps, at(k), 0);
            assert(!at(k)(ps[x]));
        }
        assert(category_at(c, k) == category_at(path_positions(e, ds, git, cats, k.path), k));
        lemma_category_some(c, k);
        let j = choose|j: int| 0 <= j < c.len() && key_of(#[trigger] c[j]) == k && category_at(c, k)
            == Some(c[j].category);
        assert(stands_for(e, path, c[j], r[i]));
    }
    assert forall|j: int| 0 <= j < c.len() && (#[trigger] c[j]).path == path implies exists|i: int|
        0 <= i < n && (#[trigger] r[i]).severity == severity && stands_for(e, path, c[j], r[i]) by {
        let k = key_of(c[j]);
        lemma_category_at(c, k, j);
        assert(category_at(c, k) == category_at(path_positions(e, ds, git, cats, k.path), k));
        lemma_category_some(ps, k);
        let x = choose|x: int| 0 <= x < ps.len() && key_of(#[trigger] ps[x]) == k && category_at(
            ps,
            k,
        ) == Some(ps[x].category);
        assert(cats.contains(ps[x].category));
        let i = choose|i: int|
            0 <= i < n && #[trigger] stands_for(e, path, ps[x], r[i]) && severity_category(
                r[i].severity,
            ) == Some(ps[x].category);
        assert(r[i].severity == severity);
        assert(stands_for(e, path, c[j], r[i]));
    }
}

proof fn lemma_changes(
    e: EditsView,
    path: Seq<char>,
    ls: Seq<LineStatus>,
    cats: Seq<IssueCategory>,
    n: int,
    i: int,
)
    requires
        0 <= i < n <= ls.len(),
        cats.contains(ls[i].category),
    ensures
        ({
            let ps = line_positions(e, path, ls, cats, n);
            exists|j: int|
                0 <= j < ps.len() && (#[trigger] ps[j]).path == path && ps[j].col == 0 && ps[j].row
                    == clamped_row(e, path, ls[i].start)
        }),
    decreases n,
{
    let ps = line_positions(e, path, ls, cats, n);
    let rest = line_positions(e, path, ls, cats, n - 1);
    if i < n - 1 {
        lemma_changes(e, path, ls, cats, n - 1, i);
        let j = choose|j: int|
            0 <= j < rest.len() && (#[trigger] rest[j]).path == path && rest[j].col == 0
                && rest[j].row == clamped_row(e, path, ls[i].start);
        assert(ps[j] == rest[j]);
    } else {
        assert(ps[rest.len() as int].col == 0);
    }
}

/// The cycle of a tier of changes holds the start of every changed range of
/// that tier in a file that counts; a file that counts without such ranges
/// is in it with its first row.
pub proof fn every_change_is_in_its_cycle(
    c: Seq<PosView>,
    e: EditsView,
    ds: DiagnosticsStates,
    git: GitState,
    cats: Seq<IssueCategory>,
    path: Seq<char>,
    ls: Seq<LineStatus>,
    i: int,
)
    requires
        is_cycle(c, e, ds, git, cats),
        git.line_statuses.map().dom().contains(path) ==> ls == git.line_statuses.map()[path]@,
        !git.line_statuses.map().dom().contains(path) ==> ls.len() == 0,
        git.file_statuses.map().dom().contains(path),
        exists|x: int|
            0 <= x < git.file_statuses.map()[path]@.len() && is_git(
                #[trigger] git.file_statuses.map()[path]@[x],
            ) && cats.contains(git.file_statuses.map()[path]@[x]),
    ensures
        ({
            &&& 0 <= i < ls.len() && cats.contains(ls[i].category) && !e.has(path)
                ==> exists|j: int|
                0 <= j < c.len() && (#[trigger] c[j]).path == path && c[j].row == ls[i].start
                    && c[j].col == 0
            &&& (forall|x: int| 0 <= x < ls.len() ==> !cats.contains((#[trigger] ls[x]).category))
                ==> exists|j: int|
                0 <= j < c.len() && (#[trigger] c[j]).path == path && c[j].row == 0 && c[j].col == 0
        }),
{
    let fc = git.file_statuses.map()[path]@;
    let x = choose|x: int|
        0 <= x < fc.len() && is_git(#[trigger] fc[x]) && cats.contains(fc[x]);
    let y = choose|y: int| 0 <= y < cats.len() && cats[y] == fc[x];
    assert(is_git(cats[y]));
    assert(any_git(cats));
    seqs::lemma_first_from(fc, within(cats), 0);
    assert(within(cats)(fc[x]));
    assert(ls =~= lines_of(git, path));
    let n = ls.len() as int;
    let found = line_positions(e, path, ls, cats, n);
    let gp = git_positions(e, git, path, cats);
    let all = path_positions(e, ds, git, cats, path);
    if 0 <= i < n && cats.contains(ls[i].category) && !e.has(path) {
        lemma_changes(e, path, ls, cats, n, i);
        let j = choose|j: int|
            0 <= j < found.len() && (#[trigger] found[j]).path == path && found[j].col == 0
                && found[j].row == clamped_row(e, path, ls[i].start);
        assert(gp == found);
        let x2 = all.len() - gp.len() + j;
        assert(all[x2] == gp[j]);
        lemma_in_cycle(c, e, ds, git, cats, path, x2);
        let y2 = choose|y: int| 0 <= y < c.len() && key_of(#[trigger] c[y]) == key_of(all[x2]);
        assert(c[y2].path == path && c[y2].row == ls[i].start && c[y2].col == 0);
    }
    if forall|z: int| 0 <= z < n ==> !cats.contains((#[trigger] ls[z]).category) {
        lemma_no_changes(e, path, ls, cats, n);
        assert(gp.len() == 1);
        let x2 = all.len() - 1;
        assert(all[x2] == gp[0]);
        lemma_in_cycle(c, e, ds, git, cats, path, x2);
        let y2 = choose|y: int| 0 <= y < c.len() && key_of(#[trigger] c[y]) == key_of(all[x2]);
        assert(c[y2].path == path && c[y2].row == 0 && c[y2].col == 0);
    }
}

proof fn lemma_no_changes(
    e: EditsView,
    path: Seq<char>,
    ls: Seq<LineStatus>,
    cats: Seq<IssueCategory>,
    n: int,
)
    requires
        0 <= n <= ls.len(),
        forall|z: int| 0 <= z < n ==> !cats.contains((#[trigger] ls[z]).category),
    ensures
        line_positions(e, path, ls, cats, n).len() == 0,
    decreases n,
{
    if n > 0 {
        lemma_no_changes(e, path, ls, cats, n - 1);
        assert(!cats.contains(ls[n - 1].category));
    }
}

proof fn lemma_in_cycle(
    c: Seq<PosView>,
    e: EditsView,
    ds: DiagnosticsStates,
    git: GitState,
    cats: Seq<IssueCategory>,
    path: Seq<char>,
    x: int,
)
    requires
        is_cycle(c, e, ds, git, cats),
        0 <= x < path_positions(e, ds, git, cats, path).len(),
        path_positions(e, ds, git, cats, path)[x].path == path,
    ensures
        exists|j: int|
            0 <= j < c.len() && key_of(#[trigger] c[j]) == key_of(
                path_positions(e, ds, git, cats, path)[x],
            ),
{
    let all = path_positions(e, ds, git, cats, path);
    let k = key_of(all[x]);
    if category_at(all, k) is None {
        seqs::lemma_first_from(all, at(k), 0);
        assert(!at(k)(all[x]));
    }
    assert(category_at(c, k) == category_at(path_positions(e, ds, git, cats, k.path), k));
    lemma_category_some(c, k);
}

proof fn lemma_last_before(s: Seq<PosView>, k: Key, n: int)
    requires
        0 <= n <= s.len(),
    ensures
        ({
            let i = last_before(s, k, n);
            &&& -1 <= i < n
            &&& i >= 0 ==> key_lt(key_of(s[i]), k)
            &&& forall|j: int| i < j < n ==> !key_lt(key_of(#[trigger] s[j]), k)
        }),
    decreases n,
{
    if n > 0 {
        lemma_last_before(s, k, n - 1);
    }
}

/// A step forward leads to the first place behind the cursor, and from the
/// last one round to the first; a step back to the last place before it, and
/// from the first one round to the last.
pub proof fn steps_go_to_the_neighbouring_place(s: Seq<PosView>, k: Key)
    requires
        s.len() > 0,
    ensures
        ({
            let f = picked(s, Some(k), true);
            let b = picked(s, Some(k), false);
            &&& 0 <= f < s.len()
            &&& 0 <= b < s.len()
            &&& (exists|j: int| 0 <= j < s.len() && key_lt(k, key_of(#[trigger] s[j]))) ==> key_lt(
                k,
                key_of(s[f]),
            ) && forall|j: int| 0 <= j < f ==> !key_lt(k, key_of(#[trigger] s[j]))
            &&& (forall|j: int| 0 <= j < s.len() ==> !key_lt(k, key_of(#[trigger] s[j]))) ==> f == 0
            &&& (exists|j: int| 0 <= j < s.len() && key_lt(key_of(#[trigger] s[j]), k)) ==> key_lt(
                key_of(s[b]),
                k,
            ) && forall|j: int| b < j < s.len() ==> !key_lt(key_of(#[trigger] s[j]), k)
            &&& (forall|j: int| 0 <= j < s.len() ==> !key_lt(key_of(#[trigger] s[j]), k)) ==> b
                == s.len() - 1
            &&& picked(s, None, true) == 0
        }),
{
    seqs::lemma_first_from(s, past(k), 0);
    lemma_last_before(s, k, s.len() as int);
    let i = seqs::first_from(s, past(k), 0);
    if i < s.len() {
        assert(past(k)(s[i]));
    }
    assert forall|j: int| 0 <= j < i && j < s.len() implies !key_lt(k, key_of(#[trigger] s[j])) by {
        assert(!past(k)(s[j]));
    }
}

/// Errors are gone through before warnings, these before changes that are
/// not staged, and these before staged ones; a step stays with the most
/// pressing tier that has anything.
pub proof fn the_most_pressing_issues_come_first(
    tabs: TabsView,
    e: EditsView,
    ds: DiagnosticsStates,
    git: GitState,
    forward: bool,
)
    ensures
        ({
            let c0 = cycle_of(e, ds, git, seq![IssueCategory::LspError]);
            let c1 = cycle_of(e, ds, git, seq![IssueCategory::LspWarning]);
            let c2 = cycle_of(e, ds, git, seq![IssueCategory::Unstaged, IssueCategory::Untracked]);
            let c3 = cycle_of(
                e,
                ds,
                git,
                seq![IssueCategory::StagedModified, IssueCategory::StagedNew],
            );
            let c = if c0.len() > 0 {
                c0
            } else if c1.len() > 0 {
                c1
            } else if c2.len() > 0 {
                c2
            } else {
                c3
            };
            let o = navigation(tabs, e, ds, git, forward);
            let here = match tabs.active_index() {
                Some(i) => Some(
                    Key {
                        path: tabs.open[i].path,
                        row: tabs.open[i].cursor.line,
                        col: tabs.open[i].cursor.col,
                    },
                ),
                None => None,
            };
            &&& o is Some <==> c.len() > 0
            &&& o is Some ==> {
                let n = o->0;
                let p = c[n.position - 1];
                &&& n.position - 1 == picked(c, here, forward)
                &&& n.total == c.len()
                &&& n.target_path == p.path
                &&& n.target_row == p.row
                &&& n.target_col == p.col
                &&& n.category == p.category
            }
        }),
{
    reveal_with_fuel(navigation_from, 5);
}

/// Going to an issue shows its place and tells how far one has come, and the
/// place that was left can be jumped back to.
pub proof fn going_to_an_issue_shows_it(
    tabs: TabsView,
    e: EditsView,
    ds: DiagnosticsStates,
    git: GitState,
    j: JumpsView,
    a: AlertsView,
    term: Terminal,
    side_visible: bool,
    forward: bool,
    now: u64,
    i: int,
)
    requires
        tabs.active_index() == Some(i),
    ensures
        ({
            let (t2, j2, a2) = issue_visited(
                tabs,
                e,
                ds,
                git,
                j,
                a,
                term,
                side_visible,
                forward,
                now,
            );
            let o = navigation(tabs, e, ds, git, forward);
            let t = tabs.open[i];
            &&& o is None ==> t2 == tabs && j2 == j && a2 == a
            &&& o is Some ==> {
                &&& t2 == landed_at(
                    tabs,
                    e,
                    o->0.target_path,
                    o->0.target_row,
                    o->0.target_col,
                    term,
                    side_visible,
                )
                &&& j2.entries.len() > 0
                &&& j2.entries.last() == (jumps::JumpView {
                    path: t.path,
                    line: t.cursor.line,
                    col: t.cursor.col,
                    scroll: t.scroll,
                })
                &&& a2.info is Some
                &&& (a2.info->0).0 == nav_message(o->0)
            }
        }),
{
    seqs::lemma_first_from(tabs.open, tabs::by_id(tabs.active->0), 0);
}

/// Landing puts the cursor of the file's tab at the place, or as near to it
/// as the text reaches, and gives it the focus; a file that is not loaded is
/// opened in a lasting tab that goes there once it is.
pub proof fn landing_shows_the_place(
    tabs: TabsView,
    e: EditsView,
    path: Seq<char>,
    row: usize,
    col: usize,
    term: Terminal,
    side_visible: bool,
)
    ensures
        ({
            let t2 = landed_at(tabs, e, path, row, col, term, side_visible);
            let text = e.buffers[path].text;
            let last = text::line_count(text) - 1;
            &&& tabs.find_path(path) is Some && e.has(path) && last <= usize::MAX ==> {
                let i = tabs.find_path(path)->0;
                let u = t2.open[i];
                let n = columns::col_count(text, u.cursor.line as int);
                &&& tabs.open[i].path == path
                &&& t2.active == Some(tabs.open[i].id)
                &&& t2.open == tabs.open.update(
                    i,
                    TabView { cursor: u.cursor, scroll: u.scroll, ..tabs.open[i] },
                )
                &&& row <= last ==> u.cursor.line == row
                &&& row > last ==> u.cursor.line == last
                &&& col <= n ==> u.cursor.col == col
                &&& col > n && n <= usize::MAX ==> u.cursor.col == n
                &&& u.cursor.preferred_col == u.cursor.col
            }
            &&& tabs.find_path(path) is None || !e.has(path) ==> {
                let o = tabs::opened(tabs, path, true);
                &&& t2.active == o.active
                &&& t2.open.len() == o.open.len()
                &&& o.find_path(path) is Some ==> t2.open[o.find_path(path)->0].pending_cursor
                    == Some(Cursor { line: row, col, preferred_col: col })
            }
        }),
{
    seqs::lemma_first_from(tabs.open, tabs::by_path(path), 0);
    text::text_has_a_line(e.buffers[path].text);
    if tabs.find_path(path) is Some {
        let i = tabs.find_path(path)->0;
        assert(tabs::by_path(path)(tabs.open[i]));
        assert(tabs.open[i].path == path);
    }
    let o = tabs::opened(tabs, path, true);
    seqs::lemma_first_from(o.open, tabs::by_path(path), 0);
}

} // verus!
