//! What is kept from one run of the editor to the next, and what is shared
//! between editors on the same file.

use vstd::prelude::*;

use crate::browser;
use crate::browser::{BrowserUi, BrowserView, FsTree, FsView};
use crate::buffers;
use crate::buffers::{BufferEdits, EditsView};
use crate::chars;
use crate::chars::{decimal_string, digit_of, same_text, substring};
use crate::columns::{Cursor, Scroll};
use crate::edits;
use crate::edits::{
    apply_group, bump_u64, copy_groups, BufferView, EditGroup, EditedBuffer, GroupView, History,
    HistoryView,
};
use crate::find_file;
use crate::find_file::canonicalize;
use crate::hits;
use crate::hits::capped_add;
use crate::jumps;
use crate::jumps::{JumpListState, JumpPosition, JumpView, JumpsView};
use crate::listing;
use crate::listing::sorted_members;
use crate::maps::{PathMap, PathSet};
use crate::paths::CanonPath;
use crate::replace_one;
use crate::replace_one::settle;
use crate::tabs::{Tabs, TabsView};
use crate::text;
use crate::text::rope_clone;
use crate::truth;
use crate::undo;

verus! {

// ---------------------------------------------------------------------
// Numbers and lines
// ---------------------------------------------------------------------

/// The digits of a number: a leading `+` does not count.
pub open spec fn digits_of(s: Seq<char>) -> Seq<char> {
    if s.len() > 0 && s[0] == '+' {
        s.subrange(1, s.len() as int)
    } else {
        s
    }
}

/// The number that a text stands for.
pub open spec fn number(s: Seq<char>) -> Option<usize> {
    let d = digits_of(s);
    let v = chars::decimal_value(d, d.len() as int);
    if d.len() > 0 && (forall|i: int| 0 <= i < d.len() ==> chars::is_digit(#[trigger] d[i])) && v
        <= usize::MAX {
        Some(v as usize)
    } else {
        None
    }
}

proof fn lemma_value_grows(s: Seq<char>, a: int, b: int)
    requires
        0 <= a <= b <= s.len(),
    ensures
        chars::decimal_value(s, a) <= chars::decimal_value(s, b),
    decreases b,
{
    if a < b {
        lemma_value_grows(s, a, b - 1);
    }
}

/// Reads a number.
pub fn parse_number(s: &str) -> (r: Option<usize>)
    ensures
        r == number(s@),
{
    let total: usize = s.unicode_len();
    let start: usize = if total > 0 && s.get_char(0) == '+' {
        1
    } else {
        0
    };
    let d = substring(s, start, total);
    assert(d@ =~= digits_of(s@));
    let n: usize = d.as_str().unicode_len();
    if n == 0 {
        return None;
    }
    let mut v: usize = 0;
    let mut i: usize = 0;
    while i < n
        invariant
            i <= n,
            n == d@.len(),
            n > 0,
            d@ == digits_of(s@),
            v == chars::decimal_value(d@, i as int),
            forall|j: int| 0 <= j < i ==> chars::is_digit(#[trigger] d@[j]),
        decreases n - i,
    {
        let x: usize = match digit_of(d.as_str().get_char(i)) {
            Some(x) => x,
            None => {
                assert(!chars::is_digit(d@[i as int]));
                return None;
            },
        };
        proof {
            lemma_value_grows(d@, i + 1, n as int);
        }
        v = match v.checked_mul(10) {
            Some(w) => match w.checked_add(x) {
                Some(w) => w,
                None => {
                    return None;
                },
            },
            None => {
                return None;
            },
        };
        i = i + 1;
    }
    Some(v)
}

/// A number that was written is read back.
pub proof fn numbers_read_back(n: usize)
    ensures
        number(chars::decimal(n as nat)) == Some(n),
{
    let d = chars::decimal(n as nat);
    chars::decimal_reads_back(n as nat);
    assert(chars::is_digit(d[0]));
    assert(digits_of(d) == d);
}

/// Where the last line feed before `n` stands, or -1.
pub open spec fn last_feed(s: Seq<char>, n: int) -> int
    decreases n,
{
    if n <= 0 || n > s.len() {
        -1
    } else if s[n - 1] == '\n' {
        n - 1
    } else {
        last_feed(s, n - 1)
    }
}

/// The lines of a text.
pub open spec fn lines(s: Seq<char>) -> Seq<Seq<char>>
    decreases s.len(),
{
    let k = last_feed(s, s.len() as int);
    if 0 <= k < s.len() {
        lines(s.subrange(0, k)).push(s.subrange(k + 1, s.len() as int))
    } else {
        seq![s]
    }
}

/// The first `n` texts, with line feeds between them.
pub open spec fn on_lines(q: Seq<Seq<char>>, n: int) -> Seq<char>
    decreases n,
{
    if n <= 0 || n > q.len() {
        seq![]
    } else if n == 1 {
        q[0]
    } else {
        on_lines(q, n - 1).push('\n') + q[n - 1]
    }
}

pub proof fn lemma_last_feed(s: Seq<char>, n: int, k: int)
    requires
        0 <= k < n <= s.len(),
        s[k] == '\n',
        forall|i: int| k < i < n ==> s[i] != '\n',
    ensures
        last_feed(s, n) == k,
    decreases n,
{
    if n - 1 > k {
        lemma_last_feed(s, n - 1, k);
    }
}

proof fn lemma_no_feed(s: Seq<char>, n: int)
    requires
        0 <= n <= s.len(),
        forall|i: int| 0 <= i < n ==> s[i] != '\n',
    ensures
        last_feed(s, n) == -1,
    decreases n,
{
    if n > 0 {
        lemma_no_feed(s, n - 1);
    }
}

/// Texts without line feeds that are put on lines are the lines.
pub proof fn lines_read_back(q: Seq<Seq<char>>, n: int)
    requires
        0 < n <= q.len(),
        forall|i: int, j: int|
            0 <= i < q.len() && 0 <= j < q[i].len() ==> #[trigger] q[i][j] != '\n',
    ensures
        lines(on_lines(q, n)) == q.subrange(0, n),
    decreases n,
{
    let s = on_lines(q, n);
    if n == 1 {
        lemma_no_feed(s, s.len() as int);
        assert(lines(s) =~= q.subrange(0, 1));
    } else {
        let head = on_lines(q, n - 1);
        let k = head.len() as int;
        assert forall|i: int| k < i < s.len() implies s[i] != '\n' by {
            assert(s[i] == q[n - 1][i - k - 1]);
        }
        lemma_last_feed(s, s.len() as int, k);
        lines_read_back(q, n - 1);
        assert(s.subrange(0, k) =~= head);
        assert(s.subrange(k + 1, s.len() as int) =~= q[n - 1]);
        assert(lines(s) =~= q.subrange(0, n));
    }
}

fn split_lines(s: &str) -> (v: Vec<String>)
    ensures
        buffers::string_views(v@) == lines(s@),
    decreases s@.len(),
{
    let n: usize = s.unicode_len();
    let mut k: usize = n;
    while k > 0 && s.get_char(k - 1) != '\n'
        invariant
            k <= n,
            n == s@.len(),
            last_feed(s@, n as int) == last_feed(s@, k as int),
        decreases k,
    {
        k = k - 1;
    }
    if k == 0 {
        let mut v: Vec<String> = Vec::new();
        v.push(s.to_owned());
        assert(buffers::string_views(v@) =~= seq![s@]);
        return v;
    }
    let head = substring(s, 0, k - 1);
    let mut v = split_lines(head.as_str());
    let ghost v0 = buffers::string_views(v@);
    let tail = substring(s, k, n);
    v.push(tail);
    assert(buffers::string_views(v@) =~= v0.push(tail@));
    v
}

fn join_lines(v: &Vec<String>) -> (s: String)
    ensures
        s@ == on_lines(buffers::string_views(v@), v.len() as int),
{
    let ghost q = buffers::string_views(v@);
    let mut s = String::new();
    let mut i: usize = 0;
    assert(s@ =~= seq![]);
    while i < v.len()
        invariant
            i <= v.len(),
            q == buffers::string_views(v@),
            s@ == on_lines(q, i as int),
        decreases v.len() - i,
    {
        assert(q[i as int] == v[i as int]@);
        if i > 0 {
            s.push('\n');
        }
        s.push_str(v[i].as_str());
        assert(i == 0 ==> s@ =~= q[0]);
        i = i + 1;
    }
    s
}

// ---------------------------------------------------------------------
// Key-value pairs
// ---------------------------------------------------------------------

/// Values under names.
pub type SessionKv = PathMap<String>;

pub open spec fn kv_views(m: Map<Seq<char>, String>) -> Map<Seq<char>, Seq<char>> {
    Map::new(|k: Seq<char>| m.dom().contains(k), |k: Seq<char>| m[k]@)
}

/// What is kept of the side panel and of the jump list. The entries of the
/// list come as the text that they were turned into.
pub open spec fn kept(b: BrowserView, index: int, entries: Option<Seq<char>>) -> Map<
    Seq<char>,
    Seq<char>,
> {
    let q = listing::listing(b.expanded_dirs);
    let m0 = Map::<Seq<char>, Seq<char>>::empty();
    let m1 = match b.selected_path {
        Some(p) => m0.insert("browser.selected_path"@, p),
        None => m0,
    };
    let m2 = m1.insert("browser.scroll_offset"@, chars::decimal(b.scroll_offset as nat));
    let m3 = if q.len() > 0 {
        m2.insert("browser.expanded_dirs"@, on_lines(q, q.len() as int))
    } else {
        m2
    };
    match entries {
        Some(t) => m3.insert("jump_list.entries"@, t).insert(
            "jump_list.index"@,
            chars::decimal(index as nat),
        ),
        None => m3,
    }
}

fn put(kv: &mut SessionKv, key: &str, value: String)
    ensures
        kv_views(final(kv).map()) == kv_views(old(kv).map()).insert(key@, value@),
{
    kv.insert(key.to_owned(), value);
    assert(kv_views(kv.map()) =~= kv_views(old(kv).map()).insert(key@, value@));
}

/// Gathers what is kept of the side panel and of the jump list.
pub fn build_session_kv(
    browser: &BrowserUi,
    jumps: &JumpListState,
    entries: Option<String>,
) -> (kv: SessionKv)
    ensures
        kv_views(kv.map()) == kept(
            browser@,
            jumps@.index,
            crate::kill::opt_text(entries),
        ),
{
    let mut kv: SessionKv = PathMap::new();
    assert(kv_views(kv.map()) =~= Map::<Seq<char>, Seq<char>>::empty());
    if let Some(sel) = &browser.selected_path {
        put(&mut kv, "browser.selected_path", sel.text.clone());
    }
    put(&mut kv, "browser.scroll_offset", decimal_string(browser.scroll_offset));
    let dirs = sorted_members(&browser.expanded_dirs);
    if dirs.len() > 0 {
        put(&mut kv, "browser.expanded_dirs", join_lines(&dirs));
    }
    if let Some(t) = entries {
        put(&mut kv, "jump_list.entries", t);
        put(&mut kv, "jump_list.index", decimal_string(jumps.index));
    }
    kv
}

/// The directories that the first `n` lines name.
pub open spec fn dirs_named(fs: FsView, q: Seq<Seq<char>>, n: int) -> Set<Seq<char>>
    decreases n,
{
    if n <= 0 || n > q.len() {
        Set::empty()
    } else if q[n - 1].len() == 0 {
        dirs_named(fs, q, n - 1)
    } else {
        dirs_named(fs, q, n - 1).insert(find_file::canonical(fs, q[n - 1]))
    }
}

/// The side panel with what was kept of it. What is missing stays as it
/// is; an offset that is no number stands for none.
pub open spec fn panel_restored(kv: Map<Seq<char>, Seq<char>>, fs: FsView, b: BrowserView) -> BrowserView {
    let q = lines(kv["browser.expanded_dirs"@]);
    BrowserView {
        selected_path: if kv.dom().contains("browser.selected_path"@) {
            Some(find_file::canonical(fs, kv["browser.selected_path"@]))
        } else {
            b.selected_path
        },
        scroll_offset: if kv.dom().contains("browser.scroll_offset"@) {
            match number(kv["browser.scroll_offset"@]) {
                Some(n) => n,
                None => 0,
            }
        } else {
            b.scroll_offset
        },
        expanded_dirs: if kv.dom().contains("browser.expanded_dirs"@) {
            dirs_named(fs, q, q.len() as int)
        } else {
            b.expanded_dirs
        },
        ..b
    }
}

/// The jump list with the entries that were kept. Entries that could not
/// be read leave an empty list; without any it stays as it is.
pub open spec fn jumps_restored(
    kv: Map<Seq<char>, Seq<char>>,
    entries: Option<Seq<JumpView>>,
    j: JumpsView,
) -> JumpsView {
    match entries {
        None => if kv.dom().contains("jump_list.entries"@) {
            JumpsView { entries: seq![], index: 0 }
        } else {
            j
        },
        Some(v) => JumpsView {
            entries: v,
            index: if kv.dom().contains("jump_list.index"@) && number(
                kv["jump_list.index"@],
            ) is Some {
                edits::least(number(kv["jump_list.index"@])->0 as int, v.len() as int)
            } else {
                v.len() as int
            },
        },
    }
}

pub open spec fn opt_jumps(v: Option<Vec<JumpPosition>>) -> Option<Seq<JumpView>> {
    match v {
        Some(x) => Some(jumps::jump_views(x@)),
        None => None,
    }
}

fn named_dirs(fs: &FsTree, s: &str) -> (r: PathSet)
    ensures
        r@ == dirs_named(fs@, lines(s@), lines(s@).len() as int),
{
    let v = split_lines(s);
    let ghost q = buffers::string_views(v@);
    let mut r = PathSet::new();
    let mut i: usize = 0;
    while i < v.len()
        invariant
            i <= v.len(),
            q == buffers::string_views(v@),
            r@ == dirs_named(fs@, q, i as int),
        decreases v.len() - i,
    {
        assert(q[i as int] == v[i as int]@);
        if v[i].as_str().unicode_len() > 0 {
            let p = canonicalize(fs, v[i].as_str());
            r.insert(p.text);
        }
        i = i + 1;
    }
    r
}

/// Restores the side panel and the jump list from what was kept of them.
/// The entries of the jump list come read already, if they could be.
pub fn apply_session_kv(
    kv: &SessionKv,
    entries: Option<Vec<JumpPosition>>,
    fs: &FsTree,
    browser: &mut BrowserUi,
    jumps: &mut JumpListState,
)
    ensures
        final(browser)@ == panel_restored(kv_views(kv.map()), fs@, old(browser)@),
        final(jumps)@ == jumps_restored(
            kv_views(kv.map()),
            opt_jumps(entries),
            old(jumps)@,
        ),
{
    if let Some(sel) = kv.get("browser.selected_path") {
        browser.selected_path = Some(canonicalize(fs, sel.as_str()));
    }
    if let Some(off) = kv.get("browser.scroll_offset") {
        browser.scroll_offset = match parse_number(off.as_str()) {
            Some(n) => n,
            None => 0,
        };
    }
    if let Some(dirs) = kv.get("browser.expanded_dirs") {
        browser.expanded_dirs = named_dirs(fs, dirs.as_str());
    }
    if let Some(v) = entries {
        let len: usize = v.len();
        jumps.entries = v;
        jumps.index = len;
        if let Some(idx) = kv.get("jump_list.index") {
            if let Some(n) = parse_number(idx.as_str()) {
                if n < len {
                    jumps.index = n;
                }
            }
        }
    } else if kv.get("jump_list.entries").is_some() {
        jumps.entries = Vec::new();
        jumps.index = 0;
        assert(jumps@.entries =~= seq![]);
    }
}

proof fn lemma_keys_differ()
    ensures
        "browser.selected_path"@ != "browser.scroll_offset"@,
        "browser.selected_path"@ != "browser.expanded_dirs"@,
        "browser.selected_path"@ != "jump_list.entries"@,
        "browser.selected_path"@ != "jump_list.index"@,
        "browser.scroll_offset"@ != "browser.expanded_dirs"@,
        "browser.scroll_offset"@ != "jump_list.entries"@,
        "browser.scroll_offset"@ != "jump_list.index"@,
        "browser.expanded_dirs"@ != "jump_list.entries"@,
        "browser.expanded_dirs"@ != "jump_list.index"@,
        "jump_list.entries"@ != "jump_list.index"@,
{
    reveal_strlit("browser.selected_path");
    reveal_strlit("browser.scroll_offset");
    reveal_strlit("browser.expanded_dirs");
    reveal_strlit("jump_list.entries");
    reveal_strlit("jump_list.index");
    assert("browser.selected_path"@[10] == 'l');
    assert("browser.scroll_offset"@[10] == 'r');
    assert("browser.scroll_offset"@[9] == 'c');
    assert("browser.selected_path"@[9] == 'e');
    assert("browser.selected_path"@[8] == 's');
    assert("browser.scroll_offset"@[8] == 's');
    assert("browser.expanded_dirs"@[8] == 'e');
    assert("browser.expanded_dirs"@[0] == 'b');
    assert("browser.scroll_offset"@[0] == 'b');
    assert("browser.selected_path"@[0] == 'b');
    assert("jump_list.entries"@[0] == 'j');
    assert("jump_list.index"@[0] == 'j');
    assert("jump_list.entries"@.len() == 17);
    assert("jump_list.index"@.len() == 15);
}

proof fn lemma_dirs_named(fs: FsView, q: Seq<Seq<char>>, n: int)
    requires
        0 <= n <= q.len(),
        forall|i: int| 0 <= i < q.len() ==> (#[trigger] q[i]).len() > 0,
        forall|i: int|
            0 <= i < q.len() ==> find_file::canonical(fs, #[trigger] q[i]) == q[i],
    ensures
        forall|p: Seq<char>| #[trigger]
            dirs_named(fs, q, n).contains(p) <==> q.subrange(0, n).contains(p),
    decreases n,
{
    if n > 0 {
        lemma_dirs_named(fs, q, n - 1);
        let d = q.subrange(0, n);
        let c = q.subrange(0, n - 1);
        assert forall|p: Seq<char>| #[trigger] dirs_named(fs, q, n).contains(p) <==> d.contains(
            p,
        ) by {
            let head = dirs_named(fs, q, n - 1);
            assert(q[n - 1].len() > 0);
            assert(find_file::canonical(fs, q[n - 1]) == q[n - 1]);
            assert(dirs_named(fs, q, n) == head.insert(q[n - 1]));
            assert(head.contains(p) <==> c.contains(p));
            if c.contains(p) {
                let i = choose|i: int| 0 <= i < c.len() && c[i] == p;
                assert(d[i] == p);
            }
            if p == q[n - 1] {
                assert(d[n - 1] == p);
            }
            if d.contains(p) && p != q[n - 1] {
                let i = choose|i: int| 0 <= i < d.len() && d[i] == p;
                assert(i < n - 1);
                assert(c[i] == p);
            }
        }
    }
}

/// What was kept of the side panel and of the jump list comes back as it
/// was, if its paths are canonical and hold no line feeds.
pub proof fn session_reads_back(b: BrowserView, j: JumpsView, t: Seq<char>, fs: FsView, b2: BrowserView, j2: JumpsView)
    requires
        0 <= j.index <= j.entries.len() <= usize::MAX,
        b.expanded_dirs.finite(),
        forall|p: Seq<char>| #[trigger]
            b.expanded_dirs.contains(p) ==> p.len() > 0 && find_file::canonical(fs, p) == p
                && !p.contains('\n'),
        b.selected_path matches Some(p) ==> find_file::canonical(fs, p) == p,
        b2.expanded_dirs == Set::<Seq<char>>::empty(),
        b2.selected_path is None,
    ensures
        ({
            let kv = kept(b, j.index, Some(t));
            let r = panel_restored(kv, fs, b2);
            &&& r.selected_path == b.selected_path
            &&& r.scroll_offset == b.scroll_offset
            &&& r.expanded_dirs == b.expanded_dirs
            &&& jumps_restored(kv, Some(j.entries), j2) == j
        }),
{
    lemma_keys_differ();
    let kv = kept(b, j.index, Some(t));
    let q = listing::listing(b.expanded_dirs);
    listing::finite_sets_have_a_listing(b.expanded_dirs);
    numbers_read_back(b.scroll_offset);
    numbers_read_back(j.index as usize);
    let r = panel_restored(kv, fs, b2);
    if q.len() > 0 {
        assert(kv["browser.expanded_dirs"@] == on_lines(q, q.len() as int));
        assert forall|i: int| 0 <= i < q.len() implies b.expanded_dirs.contains(
            #[trigger] q[i],
        ) by {
            assert(q.contains(q[i]));
        }
        assert forall|i: int, k: int| 0 <= i < q.len() && 0 <= k < q[i].len() implies #[trigger] q[i][k]
            != '\n' by {
            assert(b.expanded_dirs.contains(q[i]));
            if q[i][k] == '\n' {
                assert(q[i].contains('\n'));
            }
        }
        lines_read_back(q, q.len() as int);
        assert(q.subrange(0, q.len() as int) =~= q);
        lemma_dirs_named(fs, q, q.len() as int);
        assert(r.expanded_dirs =~= b.expanded_dirs);
    } else {
        assert(b.expanded_dirs =~= Set::<Seq<char>>::empty()) by {
            assert forall|p: Seq<char>| !b.expanded_dirs.contains(p) by {
                if b.expanded_dirs.contains(p) {
                    assert(q.contains(p));
                }
            }
        }
    }
    assert(jumps_restored(kv, Some(j.entries), j2) =~= j);
}

// ---------------------------------------------------------------------
// The session
// ---------------------------------------------------------------------

/// What is kept of one tab.
pub struct SessionBuffer {
    pub path: CanonPath,
    pub tab_order: usize,
    pub cursor: Cursor,
    pub scroll: Scroll,
}

#[verifier::ext_equal]
pub struct SessionBufferView {
    pub path: Seq<char>,
    pub tab_order: usize,
    pub cursor: Cursor,
    pub scroll: Scroll,
}

impl View for SessionBuffer {
    type V = SessionBufferView;

    open spec fn view(&self) -> SessionBufferView {
        SessionBufferView {
            path: self.path@,
            tab_order: self.tab_order,
            cursor: self.cursor,
            scroll: self.scroll,
        }
    }
}

pub open spec fn session_buffer_views(s: Seq<SessionBuffer>) -> Seq<SessionBufferView> {
    Seq::new(s.len(), |i: int| s[i]@)
}

/// All that is kept.
pub struct SessionData {
    pub active_tab_order: usize,
    pub show_side_panel: bool,
    pub buffers: Vec<SessionBuffer>,
    pub kv: SessionKv,
}

/// What is kept of the first `n` tabs: all but the preview. Also the place
/// of the active tab among them, zero if it is not among them.
pub open spec fn tabs_kept(t: TabsView, n: int) -> (Seq<SessionBufferView>, int)
    decreases n,
{
    if n <= 0 || n > t.open.len() {
        (seq![], 0)
    } else {
        let (v, a) = tabs_kept(t, n - 1);
        let tab = t.open[n - 1];
        if tab.preview {
            (v, a)
        } else {
            (
                v.push(
                    SessionBufferView {
                        path: tab.path,
                        tab_order: v.len() as usize,
                        cursor: tab.cursor,
                        scroll: tab.scroll,
                    },
                ),
                if t.active == Some(tab.id) {
                    v.len() as int
                } else {
                    a
                },
            )
        }
    }
}

/// Gathers all that is kept.
pub fn build_session_data(
    tabs: &Tabs,
    browser: &BrowserUi,
    jumps: &JumpListState,
    entries: Option<String>,
) -> (d: SessionData)
    ensures
        (session_buffer_views(d.buffers@), d.active_tab_order as int) == tabs_kept(
            tabs@,
            tabs@.open.len() as int,
        ),
        d.show_side_panel == browser@.visible,
        kv_views(d.kv.map()) == kept(browser@, jumps@.index, crate::kill::opt_text(entries)),
{
    let n: usize = tabs.len();
    let mut buffers: Vec<SessionBuffer> = Vec::new();
    let mut active_tab_order: usize = 0;
    assert(session_buffer_views(buffers@) =~= seq![]);
    let mut i: usize = 0;
    while i < n
        invariant
            i <= n,
            n == tabs@.open.len(),
            (session_buffer_views(buffers@), active_tab_order as int) == tabs_kept(
                tabs@,
                i as int,
            ),
        decreases n - i,
    {
        let tab = tabs.at(i);
        if !tab.preview {
            let order: usize = buffers.len();
            let ghost v0 = session_buffer_views(buffers@);
            if let Some(a) = tabs.active {
                if a.0 == tab.id.0 {
                    active_tab_order = order;
                }
            }
            buffers.push(
                SessionBuffer {
                    path: tab.path.copy(),
                    tab_order: order,
                    cursor: tab.cursor,
                    scroll: tab.scroll,
                },
            );
            assert(session_buffer_views(buffers@) =~= v0.push(buffers[order as int]@));
        }
        i = i + 1;
    }
    let kv = build_session_kv(browser, jumps, entries);
    SessionData { active_tab_order, show_side_panel: browser.visible, buffers, kv }
}

// ---------------------------------------------------------------------
// Undo across sessions
// ---------------------------------------------------------------------

/// The history of a buffer as it was left.
pub struct UndoRestore {
    pub content_hash: u64,
    pub chain_id: String,
    pub last_seq: u64,
    pub entries: Vec<EditGroup>,
}

#[verifier::ext_equal]
pub struct RestoreView {
    pub content_hash: u64,
    pub chain_id: Seq<char>,
    pub last_seq: u64,
    pub entries: Seq<GroupView>,
}

impl View for UndoRestore {
    type V = RestoreView;

    open spec fn view(&self) -> RestoreView {
        RestoreView {
            content_hash: self.content_hash,
            chain_id: self.chain_id@,
            last_seq: self.last_seq,
            entries: edits::group_views(self.entries@),
        }
    }
}

/// How far the history of a buffer is on disk.
pub struct UndoPersistTracker {
    pub chain_id: String,
    pub persisted_len: usize,
    pub last_seq: u64,
}

#[verifier::ext_equal]
pub struct TrackerView {
    pub chain_id: Seq<char>,
    pub persisted_len: usize,
    pub last_seq: u64,
}

impl View for UndoPersistTracker {
    type V = TrackerView;

    open spec fn view(&self) -> TrackerView {
        TrackerView {
            chain_id: self.chain_id@,
            persisted_len: self.persisted_len,
            last_seq: self.last_seq,
        }
    }
}

pub open spec fn restore_views(m: Map<Seq<char>, UndoRestore>) -> Map<Seq<char>, RestoreView> {
    Map::new(|k: Seq<char>| m.dom().contains(k), |k: Seq<char>| m[k]@)
}

pub open spec fn tracker_views(m: Map<Seq<char>, UndoPersistTracker>) -> Map<
    Seq<char>,
    TrackerView,
> {
    Map::new(|k: Seq<char>| m.dom().contains(k), |k: Seq<char>| m[k]@)
}

/// The text after the first `n` groups.
pub open spec fn groups_applied(t: Seq<char>, groups: Seq<GroupView>, n: int) -> Seq<char>
    decreases n,
{
    if n <= 0 || n > groups.len() {
        t
    } else {
        edits::ops_applied(
            groups_applied(t, groups, n - 1),
            groups[n - 1].ops,
            groups[n - 1].ops.len() as int,
        )
    }
}

fn apply_groups(rope: &mut ropey::Rope, groups: &Vec<EditGroup>)
    ensures
        text::rope_text(*final(rope)) == groups_applied(
            text::rope_text(*old(rope)),
            edits::group_views(groups@),
            groups.len() as int,
        ),
{
    let ghost t = text::rope_text(*rope);
    let ghost q = edits::group_views(groups@);
    let mut i: usize = 0;
    while i < groups.len()
        invariant
            i <= groups.len(),
            q == edits::group_views(groups@),
            text::rope_text(*rope) == groups_applied(t, q, i as int),
        decreases groups.len() - i,
    {
        assert(q[i as int] == groups[i as int]@);
        apply_group(rope, &groups[i]);
        i = i + 1;
    }
}

/// A buffer with its history as it was left.
pub open spec fn undo_restored(b: BufferView, r: RestoreView) -> BufferView {
    BufferView {
        text: groups_applied(b.text, r.entries, r.entries.len() as int),
        version: if r.entries.len() > 0 {
            edits::bumped(b.version)
        } else {
            b.version
        },
        history: HistoryView { past: r.entries, open: None, future: seq![] },
        ..b
    }
}

/// What becomes of a history that waits for its buffer. It is dropped if
/// the file changed since.
pub open spec fn pending_restored(
    path: Seq<char>,
    e: EditsView,
    pending: Map<Seq<char>, RestoreView>,
    trackers: Map<Seq<char>, TrackerView>,
) -> (EditsView, Map<Seq<char>, RestoreView>, Map<Seq<char>, TrackerView>) {
    if !pending.dom().contains(path) {
        (e, pending, trackers)
    } else {
        let r = pending[path];
        let rest = pending.remove(path);
        if !e.has(path) || e.buffers[path].disk_content_hash != r.content_hash {
            (e, rest, trackers)
        } else {
            (
                e.with_buffer(path, undo_restored(e.buffers[path], r), e.clock),
                rest,
                trackers.insert(
                    path,
                    TrackerView {
                        chain_id: r.chain_id,
                        persisted_len: r.entries.len() as usize,
                        last_seq: r.last_seq,
                    },
                ),
            )
        }
    }
}

/// Gives a buffer the history that waits for it.
pub fn apply_pending_undo_restore(
    path: &CanonPath,
    edits: &mut BufferEdits,
    pending_undo: &mut PathMap<UndoRestore>,
    undo_persistence: &mut PathMap<UndoPersistTracker>,
)
    ensures
        (
            final(edits)@,
            restore_views(final(pending_undo).map()),
            tracker_views(final(undo_persistence).map()),
        ) == pending_restored(
            path@,
            old(edits)@,
            restore_views(old(pending_undo).map()),
            tracker_views(old(undo_persistence).map()),
        ),
        truth::all_truthful(old(edits)@) && (old(pending_undo).map().dom().contains(path@)
            ==> old(edits)@.has(path@) && truth::groups_true(
            old(edits)@.buffers[path@].text,
            old(pending_undo).map()[path@]@.entries,
            old(pending_undo).map()[path@]@.entries.len() as int,
        )) ==> truth::all_truthful(final(edits)@),
{
    let ghost e0 = edits@;
    let ghost p0 = restore_views(pending_undo.map());
    let ghost t0 = tracker_views(undo_persistence.map());
    let removed = pending_undo.remove(path.as_str());
    let r = match removed {
        Some(r) => r,
        None => {
            assert(restore_views(pending_undo.map()) =~= p0);
            return;
        },
    };
    assert(restore_views(pending_undo.map()) =~= p0.remove(path@));
    let fits: bool = match edits.get(path.as_str()) {
        Some(eb) => eb.disk_content_hash == r.content_hash,
        None => false,
    };
    if !fits {
        return;
    }
    let taken = edits.take(path.as_str());
    if let Some(eb) = taken {
        let mut eb = eb;
        let ghost b0 = eb@;
        let mut rope = rope_clone(&eb.rope);
        apply_groups(&mut rope, &r.entries);
        eb.rope = rope;
        if r.entries.len() > 0 {
            eb.version = bump_u64(eb.version);
        }
        let len: usize = r.entries.len();
        let ghost rv = r@;
        let mut history = History::new();
        history.restore_past(r.entries);
        eb.history = history;
        let ghost b = eb@;
        assert(b =~= undo_restored(b0, rv)) by {
            assert(Seq::<GroupView>::empty() + rv.entries =~= rv.entries);
        }
        edits.put(path.text.clone(), eb);
        proof {
            buffers::lemma_take_put(e0, path@, b, e0.clock);
            if truth::all_truthful(e0) && truth::groups_true(
                b0.text,
                rv.entries,
                rv.entries.len() as int,
            ) {
                let h = HistoryView { past: seq![], open: None, future: seq![] };
                truth::blank_histories_are_true(h, b0.text);
                truth::appending_keeps_truth(h, b0.text, rv.entries);
                assert(h.past + rv.entries =~= rv.entries);
                truth::lemma_put(e0, path@, b, e0.clock);
                assert(edits@ =~= e0.with_buffer(path@, b, e0.clock));
            }
        }
        undo_persistence.insert(
            path.text.clone(),
            UndoPersistTracker { chain_id: r.chain_id, persisted_len: len, last_seq: r.last_seq },
        );
        assert(tracker_views(undo_persistence.map()) =~= t0.insert(
            path@,
            TrackerView {
                chain_id: rv.chain_id,
                persisted_len: len,
                last_seq: rv.last_seq,
            },
        ));
    }
}

// ---------------------------------------------------------------------
// Other editors
// ---------------------------------------------------------------------

/// A buffer with the edits of another editor, as if they had been typed
/// here: they come behind what is still open, and nothing is left to redo.
/// It stays clean: they are on disk.
pub open spec fn remotely_edited(b: BufferView, entries: Seq<GroupView>) -> BufferView {
    if entries.len() == 0 {
        b
    } else {
        replace_one::settled(
            BufferView {
                history: HistoryView {
                    past: edits::finalised(b.history).past + entries,
                    open: None,
                    future: seq![],
                },
                ..edits::retexted(b, groups_applied(b.text, entries, entries.len() as int))
            },
        )
    }
}

/// Groups that can be put behind the history of a buffer: they truly apply
/// to its text.
pub open spec fn follows(b: BufferView, entries: Seq<GroupView>) -> bool {
    truth::groups_true(b.text, entries, entries.len() as int)
}

/// Makes the edits of another editor. Where they follow what was done here,
/// histories stay true.
pub fn apply_remote_entries(edits: &mut BufferEdits, path: &CanonPath, entries: &Vec<EditGroup>)
    ensures
        final(edits)@ == (if old(edits)@.has(path@) {
            old(edits)@.with_buffer(
                path@,
                remotely_edited(
                    old(edits)@.buffers[path@],
                    edits::group_views(entries@),
                ),
                old(edits)@.clock,
            )
        } else {
            old(edits)@
        }),
        truth::all_truthful(old(edits)@) && (old(edits)@.has(path@) ==> follows(
            old(edits)@.buffers[path@],
            edits::group_views(entries@),
        )) ==> truth::all_truthful(final(edits)@),
{
    let ghost e0 = edits@;
    if !edits.has(path.as_str()) {
        return;
    }
    if entries.len() == 0 {
        proof {
            buffers::lemma_take_put(e0, path@, e0.buffers[path@], e0.clock);
        }
        return;
    }
    let taken = edits.take(path.as_str());
    if let Some(eb) = taken {
        let mut eb = eb;
        let mut rope = rope_clone(&eb.rope);
        apply_groups(&mut rope, entries);
        edits::bump(&mut eb, rope);
        settle(&mut eb);
        eb.history.finalise();
        eb.history.future = Vec::new();
        eb.history.restore_past(copy_groups(entries));
        let ghost b = eb@;
        edits.put(path.text.clone(), eb);
        proof {
            assert(b =~= remotely_edited(e0.buffers[path@], edits::group_views(entries@)));
            buffers::lemma_take_put(e0, path@, b, e0.clock);
            let b0 = e0.buffers[path@];
            let q = edits::group_views(entries@);
            if truth::all_truthful(e0) && follows(b0, q) {
                assert(e0.has(path@));
                truth::appending_keeps_truth(b0.history, b0.text, q);
                truth::lemma_put(e0, path@, b, e0.clock);
                assert(edits@ =~= e0.with_buffer(path@, b, e0.clock));
            }
        }
    }
}

/// An undo takes back the last group of another editor's edits as it would
/// one typed here, and a redo makes it again.
pub proof fn undo_takes_back_the_edits_of_another_editor(b: BufferView, entries: Seq<GroupView>)
    requires
        entries.len() > 0,
        entries.last().ops.len() > 0,
        follows(b, entries),
    ensures
        ({
            let e = remotely_edited(b, entries);
            let u = undo::buffer_undone(e);
            &&& undo::undo_group(e) == Some(entries.last())
            &&& u.text == groups_applied(b.text, entries, entries.len() - 1)
            &&& undo::buffer_redone(u).text == e.text
            &&& undo::buffer_redone(u).history == e.history
        }),
{
    let e = remotely_edited(b, entries);
    let h = e.history;
    let n = h.past.len() as int;
    let k = entries.len() as int;
    let t = groups_applied(b.text, entries, k - 1);
    assert(edits::finalised(h) == h);
    assert(h.past[n - 1] == entries.last());
    assert(edits::last_real(h.past, n) == Some(n - 1));
    edits::inverting_ops_undoes_them(t, entries.last().ops, 0);
    let u = undo::buffer_undone(e);
    assert(u.history.future =~= seq![h.past[n - 1]]);
    assert(edits::last_real(u.history.future, 1) == Some(0int));
    edits::redo_reverses_undo(h, n - 1);
}

/// What another editor was found to have done.
pub enum SyncResultKind {
    SyncEntries {
        path: CanonPath,
        chain_id: String,
        content_hash: u64,
        entries: Vec<EditGroup>,
        new_last_seen_seq: u64,
    },
    ExternalSave { path: CanonPath },
    NoChange,
}

/// The edits of another editor continue what is known here.
pub open spec fn continues(
    e: EditsView,
    trackers: Map<Seq<char>, TrackerView>,
    path: Seq<char>,
    chain_id: Seq<char>,
    content_hash: u64,
) -> bool {
    &&& trackers.dom().contains(path) && trackers[path].chain_id == chain_id
    &&& e.has(path) && e.buffers[path].disk_content_hash == content_hash
}

/// What becomes of what another editor did: edits that continue what is
/// known here are made; else the file is to be read again.
pub open spec fn synced(
    kind: SyncResultKind,
    e: EditsView,
    trackers: Map<Seq<char>, TrackerView>,
    rereads: Seq<Seq<char>>,
) -> (EditsView, Map<Seq<char>, TrackerView>, Seq<Seq<char>>) {
    match kind {
        SyncResultKind::NoChange => (e, trackers, rereads),
        SyncResultKind::ExternalSave { path } => (e, trackers, rereads.push(path@)),
        SyncResultKind::SyncEntries { path, chain_id, content_hash, entries, new_last_seen_seq } => {
            if !continues(e, trackers, path@, chain_id@, content_hash) {
                (e, trackers, rereads.push(path@))
            } else {
                let t = trackers[path@];
                (
                    e.with_buffer(
                        path@,
                        remotely_edited(e.buffers[path@], edits::group_views(entries@)),
                        e.clock,
                    ),
                    trackers.insert(
                        path@,
                        TrackerView {
                            last_seq: new_last_seen_seq,
                            persisted_len: hits::capped(
                                t.persisted_len as int,
                                entries.len() as int,
                            ) as usize,
                            ..t
                        },
                    ),
                    rereads,
                )
            }
        },
    }
}

fn push_reread(rereads: &mut Vec<String>, path: &CanonPath)
    ensures
        buffers::string_views(final(rereads)@) == buffers::string_views(old(rereads)@).push(path@),
{
    rereads.push(path.text.clone());
    assert(buffers::string_views(rereads@) =~= buffers::string_views(old(rereads)@).push(path@));
}

/// Takes note of what another editor did. Files to be read again are put
/// on a list.
pub fn apply_sync_result(
    kind: SyncResultKind,
    edits: &mut BufferEdits,
    undo_persistence: &mut PathMap<UndoPersistTracker>,
    rereads: &mut Vec<String>,
)
    ensures
        (
            final(edits)@,
            tracker_views(final(undo_persistence).map()),
            buffers::string_views(final(rereads)@),
        ) == synced(
            kind,
            old(edits)@,
            tracker_views(old(undo_persistence).map()),
            buffers::string_views(old(rereads)@),
        ),
        truth::all_truthful(old(edits)@) && (match kind {
            SyncResultKind::SyncEntries { path, entries, .. } => old(edits)@.has(path@)
                ==> follows(old(edits)@.buffers[path@], edits::group_views(entries@)),
            _ => true,
        }) ==> truth::all_truthful(final(edits)@),
{
    let ghost t0 = tracker_views(undo_persistence.map());
    match kind {
        SyncResultKind::NoChange => {},
        SyncResultKind::ExternalSave { path } => push_reread(rereads, &path),
        SyncResultKind::SyncEntries { path, chain_id, content_hash, entries, new_last_seen_seq } => {
            let known: bool = match undo_persistence.get(path.as_str()) {
                Some(t) => same_text(t.chain_id.as_str(), chain_id.as_str()),
                None => false,
            };
            let same: bool = match edits.get(path.as_str()) {
                Some(eb) => eb.disk_content_hash == content_hash,
                None => false,
            };
            if !known || !same {
                push_reread(rereads, &path);
                return;
            }
            apply_remote_entries(edits, &path, &entries);
            let removed = undo_persistence.remove(path.as_str());
            if let Some(t) = removed {
                let ghost tv = t@;
                let persisted_len: usize = capped_add(t.persisted_len, entries.len());
                undo_persistence.insert(
                    path.text.clone(),
                    UndoPersistTracker {
                        chain_id: t.chain_id,
                        persisted_len,
                        last_seq: new_last_seen_seq,
                    },
                );
                assert(tracker_views(undo_persistence.map()) =~= t0.insert(
                    path@,
                    TrackerView {
                        chain_id: tv.chain_id,
                        persisted_len,
                        last_seq: new_last_seen_seq,
                    },
                ));
            }
        },
    }
}

/// A buffer that was clean stays clean under the edits of another editor,
/// and a file whose content is not the one that they were made on is left
/// alone and read again.
pub proof fn syncing_is_safe(
    path: CanonPath,
    chain_id: String,
    content_hash: u64,
    entries: Vec<EditGroup>,
    new_last_seen_seq: u64,
    e: EditsView,
    trackers: Map<Seq<char>, TrackerView>,
    rereads: Seq<Seq<char>>,
)
    requires
        e.has(path@),
    ensures
        ({
            let kind = SyncResultKind::SyncEntries {
                path,
                chain_id,
                content_hash,
                entries,
                new_last_seen_seq,
            };
            let (e2, t2, r2) = synced(kind, e, trackers, rereads);
            &&& e.buffers[path@].disk_content_hash != content_hash ==> e2 == e && r2.contains(path@)
            &&& !edits::is_dirty(e.buffers[path@]) ==> !edits::is_dirty(e2.buffers[path@])
        }),
{
    assert(rereads.push(path@)[rereads.len() as int] == path@);
}

// ---------------------------------------------------------------------
// Buffers that were loaded
// ---------------------------------------------------------------------

/// Makes a buffer for a file that was loaded, unless there is one. Tells
/// whether it did.
pub fn seed_edit_from_load(edits: &mut BufferEdits, path: &CanonPath, rope: ropey::Rope) -> (fresh: bool)
    ensures
        fresh == !old(edits)@.has(path@),
        final(edits)@ == (if fresh {
            old(edits)@.with_buffer(
                path@,
                edits::fresh_buffer(text::rope_text(rope)),
                old(edits)@.clock,
            )
        } else {
            old(edits)@
        }),
        truth::all_truthful(old(edits)@) ==> truth::all_truthful(final(edits)@),
{
    if edits.has(path.as_str()) {
        return false;
    }
    let ghost e0 = edits@;
    let ghost t = text::rope_text(rope);
    edits.put(path.text.clone(), EditedBuffer::fresh(rope));
    proof {
        truth::fresh_histories_are_true(t);
        if truth::all_truthful(e0) {
            truth::lemma_put(e0, path@, edits::fresh_buffer(t), e0.clock);
        }
        assert(edits@ =~= e0.with_buffer(path@, edits::fresh_buffer(t), e0.clock));
    }
    true
}

/// How many of the last groups, from `n` down to the newest marker of a
/// save, hold operations.
pub open spec fn groups_since_save(past: Seq<GroupView>, n: int) -> int
    decreases n,
{
    if n <= 0 || n > past.len() || past[n - 1].save_point_hash is Some {
        0
    } else if past[n - 1].ops.len() > 0 {
        groups_since_save(past, n - 1) + 1
    } else {
        groups_since_save(past, n - 1)
    }
}

/// How many steps lie between the current text and the last save.
pub fn distance_from_save_for(eb: &EditedBuffer) -> (r: usize)
    ensures
        r == groups_since_save(eb@.history.past, eb@.history.past.len() as int),
{
    let ghost q = eb@.history.past;
    let n: usize = eb.history.past.len();
    let mut r: usize = 0;
    let mut i: usize = n;
    while i > 0 && eb.history.past[i - 1].save_point_hash.is_none()
        invariant
            i <= n,
            n == eb.history.past.len(),
            q == eb@.history.past,
            r <= n - i,
            groups_since_save(q, n as int) == r + groups_since_save(q, i as int),
        decreases i,
    {
        assert(q[i - 1] == eb.history.past[i - 1]@);
        if eb.history.past[i - 1].ops.len() > 0 {
            r = r + 1;
        }
        i = i - 1;
    }
    if i > 0 {
        assert(q[i - 1] == eb.history.past[i - 1]@);
    }
    r
}

/// The hash of what a buffer has on disk.
pub fn disk_content_hash_for(eb: &EditedBuffer) -> (h: u64)
    ensures
        h == eb@.disk_content_hash,
{
    eb.disk_content_hash
}

// ---------------------------------------------------------------------
// Laws
// ---------------------------------------------------------------------

proof fn lemma_tabs_kept(t: TabsView, n: int)
    requires
        0 <= n <= t.open.len() <= usize::MAX,
    ensures
        ({
            let v = tabs_kept(t, n).0;
            &&& v.len() <= n
            &&& forall|i: int|
                0 <= i < n && !(#[trigger] t.open[i]).preview ==> exists|k: int|
                    0 <= k < v.len() && keeps(#[trigger] v[k], t.open[i])
            &&& forall|k: int|
                0 <= k < v.len() ==> (#[trigger] v[k]).tab_order == k && exists|i: int|
                    0 <= i < n && !(#[trigger] t.open[i]).preview && keeps(v[k], t.open[i])
        }),
    decreases n,
{
    if n > 0 {
        lemma_tabs_kept(t, n - 1);
        let r = tabs_kept(t, n - 1).0;
        let v = tabs_kept(t, n).0;
        assert forall|i: int| 0 <= i < n && !(#[trigger] t.open[i]).preview implies exists|k: int|
            0 <= k < v.len() && keeps(#[trigger] v[k], t.open[i]) by {
            if i < n - 1 {
                let k = choose|k: int| 0 <= k < r.len() && keeps(#[trigger] r[k], t.open[i]);
                assert(v[k] == r[k]);
            } else {
                assert(keeps(v[r.len() as int], t.open[i]));
            }
        }
        assert forall|k: int| 0 <= k < v.len() implies (#[trigger] v[k]).tab_order == k
            && exists|i: int|
            0 <= i < n && !(#[trigger] t.open[i]).preview && keeps(v[k], t.open[i]) by {
            if k < r.len() {
                assert(v[k] == r[k]);
                let i = choose|i: int|
                    0 <= i < n - 1 && !(#[trigger] t.open[i]).preview && keeps(r[k], t.open[i]);
                assert(keeps(v[k], t.open[i]));
            } else {
                assert(keeps(v[k], t.open[n - 1]));
            }
        }
    }
}

/// What is kept of a tab: its file and where the cursor and the view stood.
pub open spec fn keeps(v: SessionBufferView, t: crate::tabs::TabView) -> bool {
    v.path == t.path && v.cursor == t.cursor && v.scroll == t.scroll
}

/// A session keeps every lasting tab, in order and with its place, and no
/// preview.
pub proof fn lasting_tabs_are_kept(t: TabsView)
    requires
        t.open.len() <= usize::MAX,
    ensures
        ({
            let n = t.open.len() as int;
            let v = tabs_kept(t, n).0;
            &&& forall|i: int|
                0 <= i < n && !(#[trigger] t.open[i]).preview ==> exists|k: int|
                    0 <= k < v.len() && keeps(#[trigger] v[k], t.open[i])
            &&& forall|k: int|
                0 <= k < v.len() ==> (#[trigger] v[k]).tab_order == k && exists|i: int|
                    0 <= i < n && !(#[trigger] t.open[i]).preview && keeps(v[k], t.open[i])
        }),
{
    lemma_tabs_kept(t, t.open.len() as int);
}

proof fn lemma_active_kept(t: TabsView, n: int, i: int)
    requires
        0 <= i < n <= t.open.len(),
        !t.open[i].preview,
        t.active == Some(t.open[i].id),
        forall|k: int| i < k < n ==> (#[trigger] t.open[k]).id != t.open[i].id,
    ensures
        ({
            let (v, a) = tabs_kept(t, n);
            0 <= a < v.len() && keeps(v[a], t.open[i])
        }),
    decreases n,
{
    if n - 1 > i {
        lemma_active_kept(t, n - 1, i);
        assert(t.open[n - 1].id != t.open[i].id);
    }
}

/// Which tab had the focus is kept too.
pub proof fn the_focus_is_kept(t: TabsView, i: int)
    requires
        0 <= i < t.open.len(),
        !t.open[i].preview,
        t.active == Some(t.open[i].id),
        forall|k: int| 0 <= k < t.open.len() && k != i ==> (#[trigger] t.open[k]).id != t.open[i].id,
    ensures
        ({
            let (v, a) = tabs_kept(t, t.open.len() as int);
            0 <= a < v.len() && keeps(v[a], t.open[i])
        }),
{
    lemma_active_kept(t, t.open.len() as int, i);
}

/// The edits that were kept of a file are made again when it is loaded, if
/// it still is what they were made on, and can be undone one by one to the
/// text on disk; else they are dropped.
pub proof fn kept_edits_are_made_again(
    path: Seq<char>,
    e: EditsView,
    pending: Map<Seq<char>, RestoreView>,
    trackers: Map<Seq<char>, TrackerView>,
)
    requires
        pending.dom().contains(path),
        e.has(path),
        truth::groups_true(
            e.buffers[path].text,
            pending[path].entries,
            pending[path].entries.len() as int,
        ),
    ensures
        ({
            let (e2, p2, k2) = pending_restored(path, e, pending, trackers);
            let r = pending[path];
            let b = e.buffers[path];
            let b2 = e2.buffers[path];
            &&& !p2.dom().contains(path)
            &&& b.disk_content_hash != r.content_hash ==> e2 == e && k2 == trackers
            &&& b.disk_content_hash == r.content_hash ==> {
                &&& truth::undone_times(b2, r.entries.len() + 1).text == b.text
                &&& b2.history.past == r.entries
                &&& b2.saved_version == b.saved_version
                &&& r.entries.len() == 0 ==> b2.text == b.text && b2.version == b.version
                &&& r.entries.len() > 0 && b.version < u64::MAX ==> b2.version == b.version + 1
                &&& k2.dom().contains(path)
                &&& k2[path].chain_id == r.chain_id
                &&& k2[path].last_seq == r.last_seq
                &&& forall|p: Seq<char>|
                    p != path ==> #[trigger] e2.buffers[p] == e.buffers[p] && e2.has(p) == e.has(p)
            }
        }),
{
    let r = pending[path];
    let b = e.buffers[path];
    if b.disk_content_hash == r.content_hash {
        let b2 = undo_restored(b, r);
        assert(edits::finalised(b2.history) == b2.history);
        assert(truth::told_from(b2.history, b2.text, b.text));
        truth::undoing_all_leads_to_the_first_text(b2, b.text);
    }
}

/// The groups that count: those that changed something.
pub open spec fn that_changed() -> spec_fn(GroupView) -> bool {
    |g: GroupView| g.ops.len() > 0
}

/// The groups since the last save are those behind the last save point that
/// changed something.
pub proof fn groups_behind_the_save_point_count(past: Seq<GroupView>, s: int, n: int)
    requires
        -1 <= s < n <= past.len(),
        s >= 0 ==> past[s].save_point_hash is Some,
        forall|k: int| s < k < n ==> (#[trigger] past[k]).save_point_hash is None,
    ensures
        groups_since_save(past, n) == past.subrange(s + 1, n).filter(that_changed()).len(),
    decreases n,
{
    let w = past.subrange(s + 1, n);
    reveal(Seq::filter);
    if n - 1 > s {
        assert(past[n - 1].save_point_hash is None);
        assert(w.drop_last() =~= past.subrange(s + 1, n - 1));
        assert(w.last() == past[n - 1]);
        groups_behind_the_save_point_count(past, s, n - 1);
    }
}

} // verus!
