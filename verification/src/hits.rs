//! The state of the search through all files of the workspace.

use vstd::prelude::*;

use crate::input::{InputView, TextInput};
use crate::paths::CanonPath;
use crate::tabs::TabId;

verus! {

// ---------------------------------------------------------------------
// Slices by bytes
// ---------------------------------------------------------------------

/// The characters of `s` whose bytes are those from `a` up to `b`, if
/// characters start there.
pub open spec fn byte_slice(s: Seq<char>, a: int, b: int) -> Option<Seq<char>> {
    let bytes = vstd::utf8::encode_utf8(s);
    if a <= b && vstd::utf8::is_char_boundary(bytes, a) && vstd::utf8::is_char_boundary(bytes, b) {
        Some(vstd::utf8::decode_utf8(bytes.subrange(a, b)))
    } else {
        None
    }
}

proof fn lemma_boundary_in_prefix(bytes: Seq<u8>, a: int, b: int)
    requires
        vstd::utf8::valid_utf8(bytes),
        a <= b,
        vstd::utf8::is_char_boundary(bytes, a),
        vstd::utf8::is_char_boundary(bytes, b),
    ensures
        vstd::utf8::valid_utf8(bytes.subrange(0, b)),
        vstd::utf8::is_char_boundary(bytes.subrange(0, b), a),
        0 <= a,
        b <= bytes.len(),
    decreases bytes.len(),
{
    vstd::utf8::valid_utf8_split(bytes, b);
    reveal_with_fuel(vstd::utf8::is_char_boundary, 2);
    if a != 0 {
        let n = vstd::utf8::length_of_first_scalar(bytes);
        let head = bytes.subrange(0, b);
        let tail = vstd::utf8::pop_first_scalar(bytes);
        lemma_boundary_in_prefix(tail, a - n, b - n);
        assert(vstd::utf8::pop_first_scalar(head) =~= tail.subrange(0, b - n));
        assert(vstd::utf8::length_of_first_scalar(head) == n);
    }
}

/// The characters of `s` whose bytes are those from `a` up to `b`.
pub fn slice_bytes(s: &str, a: usize, b: usize) -> (r: Option<String>)
    ensures
        match r {
            Some(x) => byte_slice(s@, a as int, b as int) == Some(x@),
            None => byte_slice(s@, a as int, b as int) is None,
        },
{
    if a <= b && s.is_char_boundary(a) && s.is_char_boundary(b) {
        let ghost bytes = vstd::utf8::encode_utf8(s@);
        proof {
            vstd::utf8::encode_utf8_valid_utf8(s@);
            lemma_boundary_in_prefix(bytes, a as int, b as int);
        }
        let (head, _) = s.split_at(b);
        let (_, mid) = head.split_at(a);
        proof {
            assert(vstd::utf8::encode_utf8(mid@) =~= bytes.subrange(a as int, b as int));
            vstd::utf8::encode_utf8_decode_utf8(mid@);
        }
        Some(mid.to_owned())
    } else {
        None
    }
}

// ---------------------------------------------------------------------
// Hits
// ---------------------------------------------------------------------

/// A place where the query was found.
pub struct FileSearchHit {
    pub path: CanonPath,
    /// The line, counted from one.
    pub line: usize,
    /// The column in characters, counted from one.
    pub col: usize,
    /// The text of the line.
    pub preview: String,
    /// The bytes of the preview that matched.
    pub match_start: usize,
    pub match_end: usize,
}

#[verifier::ext_equal]
pub struct HitView {
    pub path: Seq<char>,
    pub line: usize,
    pub col: usize,
    pub preview: Seq<char>,
    pub match_start: usize,
    pub match_end: usize,
}

impl View for FileSearchHit {
    type V = HitView;

    open spec fn view(&self) -> HitView {
        HitView {
            path: self.path@,
            line: self.line,
            col: self.col,
            preview: self.preview@,
            match_start: self.match_start,
            match_end: self.match_end,
        }
    }
}

impl FileSearchHit {
    pub fn copy(&self) -> (h: FileSearchHit)
        ensures
            h@ == self@,
    {
        FileSearchHit {
            path: self.path.copy(),
            line: self.line,
            col: self.col,
            preview: self.preview.clone(),
            match_start: self.match_start,
            match_end: self.match_end,
        }
    }
}

impl HitView {
    /// The text that matched.
    pub open spec fn matched(self) -> Seq<char> {
        match byte_slice(self.preview, self.match_start as int, self.match_end as int) {
            Some(t) => t,
            None => seq![],
        }
    }

    /// The line, counted from zero.
    pub open spec fn line0(self) -> int {
        if self.line == 0 {
            0
        } else {
            self.line - 1
        }
    }

    /// The column, counted from zero.
    pub open spec fn col0(self) -> int {
        if self.col == 0 {
            0
        } else {
            self.col - 1
        }
    }
}

impl FileSearchHit {
    pub fn matched(&self) -> (s: String)
        ensures
            s@ == self@.matched(),
    {
        match slice_bytes(self.preview.as_str(), self.match_start, self.match_end) {
            Some(t) => t,
            None => {
                let s = String::new();
                assert(s@ =~= seq![]);
                s
            },
        }
    }

    pub fn line0(&self) -> (n: usize)
        ensures
            n == self@.line0(),
    {
        if self.line == 0 {
            0
        } else {
            self.line - 1
        }
    }

    pub fn col0(&self) -> (n: usize)
        ensures
            n == self@.col0(),
    {
        if self.col == 0 {
            0
        } else {
            self.col - 1
        }
    }
}

/// The hits of one file.
pub struct FileSearchGroup {
    pub path: CanonPath,
    pub relative: String,
    pub hits: Vec<FileSearchHit>,
}

#[verifier::ext_equal]
pub struct HitGroupView {
    pub path: Seq<char>,
    pub relative: Seq<char>,
    pub hits: Seq<HitView>,
}

pub open spec fn hit_views(s: Seq<FileSearchHit>) -> Seq<HitView> {
    Seq::new(s.len(), |i: int| s[i]@)
}

impl View for FileSearchGroup {
    type V = HitGroupView;

    open spec fn view(&self) -> HitGroupView {
        HitGroupView {
            path: self.path@,
            relative: self.relative@,
            hits: hit_views(self.hits@),
        }
    }
}

pub open spec fn hit_group_views(s: Seq<FileSearchGroup>) -> Seq<HitGroupView> {
    Seq::new(s.len(), |i: int| s[i]@)
}

/// A hit that was replaced.
pub struct ReplaceEntry {
    pub hit: FileSearchHit,
    pub replacement_text: String,
    pub replacement_char_len: usize,
    pub original_char_len: usize,
    /// Where the replacement stands in the text of its buffer.
    pub rope_char_start: usize,
    pub path: CanonPath,
}

#[verifier::ext_equal]
pub struct EntryView {
    pub hit: HitView,
    pub replacement_text: Seq<char>,
    pub replacement_char_len: usize,
    pub original_char_len: usize,
    pub rope_char_start: usize,
    pub path: Seq<char>,
}

impl View for ReplaceEntry {
    type V = EntryView;

    open spec fn view(&self) -> EntryView {
        EntryView {
            hit: self.hit@,
            replacement_text: self.replacement_text@,
            replacement_char_len: self.replacement_char_len,
            original_char_len: self.original_char_len,
            rope_char_start: self.rope_char_start,
            path: self.path@,
        }
    }
}

/// The entry of a hit that was replaced by `put`, which then stands at
/// `at`.
pub open spec fn entry_of(hit: HitView, put: Seq<char>, at: int) -> EntryView {
    EntryView {
        hit,
        replacement_text: put,
        replacement_char_len: put.len() as usize,
        original_char_len: hit.matched().len() as usize,
        rope_char_start: at as usize,
        path: hit.path,
    }
}

pub fn make_entry(hit: &FileSearchHit, put: String, at: usize) -> (e: ReplaceEntry)
    ensures
        e@ == entry_of(hit@, put@, at as int),
{
    let replacement_char_len: usize = put.as_str().unicode_len();
    let gone = hit.matched();
    let original_char_len: usize = gone.as_str().unicode_len();
    ReplaceEntry {
        hit: hit.copy(),
        replacement_text: put,
        replacement_char_len,
        original_char_len,
        rope_char_start: at,
        path: hit.path.copy(),
    }
}

pub open spec fn opt_entry(e: Option<ReplaceEntry>) -> Option<EntryView> {
    match e {
        Some(x) => Some(x@),
        None => None,
    }
}

pub open spec fn opt_entries(s: Seq<Option<ReplaceEntry>>) -> Seq<Option<EntryView>> {
    Seq::new(s.len(), |i: int| opt_entry(s[i]))
}

// ---------------------------------------------------------------------
// The search
// ---------------------------------------------------------------------

/// The row of the side panel that has the focus.
#[derive(Clone, Copy, Debug, PartialEq, Eq, Structural)]
pub enum FileSearchSelection {
    SearchInput,
    ReplaceInput,
    Result(usize),
}

/// A search that is asked for.
pub struct SearchRequest {
    pub query: String,
    pub case_sensitive: bool,
    pub use_regex: bool,
}

#[verifier::ext_equal]
pub struct RequestView {
    pub query: Seq<char>,
    pub case_sensitive: bool,
    pub use_regex: bool,
}

impl View for SearchRequest {
    type V = RequestView;

    open spec fn view(&self) -> RequestView {
        RequestView {
            query: self.query@,
            case_sensitive: self.case_sensitive,
            use_regex: self.use_regex,
        }
    }
}

pub open spec fn request_views(s: Seq<SearchRequest>) -> Seq<RequestView> {
    Seq::new(s.len(), |i: int| s[i]@)
}

pub struct FileSearchState {
    pub query: TextInput,
    pub replace: TextInput,
    pub case_sensitive: bool,
    pub use_regex: bool,
    pub replace_mode: bool,
    pub selection: FileSearchSelection,
    pub flat_hits: Vec<FileSearchHit>,
    /// The hits by file.
    pub results: Vec<FileSearchGroup>,
    /// Which of the flat hits were replaced.
    pub hit_replacements: Vec<Option<ReplaceEntry>>,
    pub scroll_offset: usize,
    pub previous_tab: Option<TabId>,
    /// The age of the newest edit when the overlay was opened.
    pub overlay_open_seq: u64,
    pub pending_search: Vec<SearchRequest>,
}

#[verifier::ext_equal]
pub struct SearchView {
    pub query: InputView,
    pub replace: InputView,
    pub case_sensitive: bool,
    pub use_regex: bool,
    pub replace_mode: bool,
    pub selection: FileSearchSelection,
    pub flat_hits: Seq<HitView>,
    pub results: Seq<HitGroupView>,
    pub hit_replacements: Seq<Option<EntryView>>,
    pub scroll_offset: usize,
    pub previous_tab: Option<TabId>,
    pub overlay_open_seq: u64,
    pub pending_search: Seq<RequestView>,
}

impl View for FileSearchState {
    type V = SearchView;

    open spec fn view(&self) -> SearchView {
        SearchView {
            query: self.query@,
            replace: self.replace@,
            case_sensitive: self.case_sensitive,
            use_regex: self.use_regex,
            replace_mode: self.replace_mode,
            selection: self.selection,
            flat_hits: hit_views(self.flat_hits@),
            results: hit_group_views(self.results@),
            hit_replacements: opt_entries(self.hit_replacements@),
            scroll_offset: self.scroll_offset,
            previous_tab: self.previous_tab,
            overlay_open_seq: self.overlay_open_seq,
            pending_search: request_views(self.pending_search@),
        }
    }
}

pub open spec fn opt_view(s: Option<FileSearchState>) -> Option<SearchView> {
    match s {
        Some(x) => Some(x@),
        None => None,
    }
}

pub open spec fn no_input() -> InputView {
    InputView { before: seq![], after: seq![] }
}

/// A search that was just opened.
pub open spec fn fresh() -> SearchView {
    SearchView {
        query: no_input(),
        replace: no_input(),
        case_sensitive: false,
        use_regex: false,
        replace_mode: false,
        selection: FileSearchSelection::SearchInput,
        flat_hits: seq![],
        results: seq![],
        hit_replacements: seq![],
        scroll_offset: 0,
        previous_tab: None,
        overlay_open_seq: 0,
        pending_search: seq![],
    }
}

/// The search asked for again. What was replaced is forgotten: the hits
/// that come are new.
pub open spec fn queued(s: SearchView) -> SearchView {
    SearchView {
        hit_replacements: seq![],
        pending_search: s.pending_search.push(
            RequestView {
                query: s.query.text(),
                case_sensitive: s.case_sensitive,
                use_regex: s.use_regex,
            },
        ),
        ..s
    }
}

impl FileSearchState {
    pub fn new() -> (s: FileSearchState)
        ensures
            s@ == fresh(),
    {
        let s = FileSearchState {
            query: TextInput::new(""),
            replace: TextInput::new(""),
            case_sensitive: false,
            use_regex: false,
            replace_mode: false,
            selection: FileSearchSelection::SearchInput,
            flat_hits: Vec::new(),
            results: Vec::new(),
            hit_replacements: Vec::new(),
            scroll_offset: 0,
            previous_tab: None,
            overlay_open_seq: 0,
            pending_search: Vec::new(),
        };
        proof {
            reveal_strlit("");
            assert(s@ =~= fresh());
        }
        s
    }

    pub fn queue_search(&mut self)
        ensures
            final(self)@ == queued(old(self)@),
    {
        self.hit_replacements = Vec::new();
        let query = self.query.text();
        self.pending_search.push(
            SearchRequest {
                query,
                case_sensitive: self.case_sensitive,
                use_regex: self.use_regex,
            },
        );
        assert(self@ =~= queued(old(self)@));
    }
}

// ---------------------------------------------------------------------
// Rows of the side panel
// ---------------------------------------------------------------------

/// `a + b`, as far as it can be counted.
pub open spec fn capped(a: int, b: int) -> int {
    if a + b > usize::MAX {
        usize::MAX as int
    } else {
        a + b
    }
}

pub fn capped_add(a: usize, b: usize) -> (r: usize)
    ensures
        r == capped(a as int, b as int),
{
    match a.checked_add(b) {
        Some(r) => r,
        None => usize::MAX,
    }
}

/// The row of flat hit `i` in the list of files and hits, if the groups
/// from `k` on follow `stream` rows and `seen` hits. Every group has a row
/// of its own before those of its hits.
pub open spec fn tree_row_from(g: Seq<HitGroupView>, k: int, i: int, stream: int, seen: int) -> int
    decreases g.len() - k,
{
    if k < 0 || k >= g.len() {
        if stream > 0 {
            stream - 1
        } else {
            0
        }
    } else {
        let n = g[k].hits.len() as int;
        if i < capped(seen, n) {
            capped(capped(stream, 1), i - seen)
        } else {
            tree_row_from(g, k + 1, i, capped(capped(stream, 1), n), capped(seen, n))
        }
    }
}

/// The row of flat hit `i`.
pub open spec fn tree_row(g: Seq<HitGroupView>, i: int) -> int {
    tree_row_from(g, 0, i, 0, 0)
}

pub proof fn lemma_tree_row(g: Seq<HitGroupView>, k: int, i: int, stream: int, seen: int)
    requires
        0 <= stream <= usize::MAX,
        0 <= seen <= i,
    ensures
        0 <= tree_row_from(g, k, i, stream, seen) <= usize::MAX,
    decreases g.len() - k,
{
    if 0 <= k < g.len() {
        let n = g[k].hits.len() as int;
        if i >= capped(seen, n) {
            lemma_tree_row(g, k + 1, i, capped(capped(stream, 1), n), capped(seen, n));
        }
    }
}

pub fn tree_row_index_for_hit(groups: &Vec<FileSearchGroup>, flat_idx: usize) -> (r: usize)
    ensures
        r == tree_row(hit_group_views(groups@), flat_idx as int),
{
    let ghost g = hit_group_views(groups@);
    let mut stream: usize = 0;
    let mut seen: usize = 0;
    let mut k: usize = 0;
    while k < groups.len()
        invariant
            k <= groups.len(),
            g == hit_group_views(groups@),
            seen <= flat_idx,
            tree_row(g, flat_idx as int) == tree_row_from(
                g,
                k as int,
                flat_idx as int,
                stream as int,
                seen as int,
            ),
        decreases groups.len() - k,
    {
        assert(g[k as int] == groups[k as int]@);
        let n: usize = groups[k].hits.len();
        stream = capped_add(stream, 1);
        if flat_idx < capped_add(seen, n) {
            return capped_add(stream, flat_idx - seen);
        }
        stream = capped_add(stream, n);
        seen = capped_add(seen, n);
        k = k + 1;
    }
    if stream > 0 {
        stream - 1
    } else {
        0
    }
}

/// The top line of a view that shows `line` with a third of its rows above
/// it; the first line while there are no rows.
pub open spec fn preview_top(line: int, rows: int) -> int {
    if rows == 0 {
        0
    } else if line < rows / 3 {
        0
    } else {
        line - rows / 3
    }
}

/// Scrolls so that `line` lands about a third down from the top, as far as
/// the start of the file allows.
pub fn preview_scroll_top(line: usize, body_rows: usize) -> (r: usize)
    ensures
        r == preview_top(line as int, body_rows as int),
{
    if body_rows == 0 {
        return 0;
    }
    let offset: usize = body_rows / 3;
    if line < offset {
        0
    } else {
        line - offset
    }
}

/// How many rows of hits the side panel has room for.
pub open spec fn tree_rows_visible(s: SearchView, side_rows: int) -> int {
    let taken = if s.replace_mode {
        3int
    } else {
        2int
    };
    if side_rows < taken {
        0
    } else {
        side_rows - taken
    }
}

pub fn tree_visible(state: &FileSearchState, side_rows: usize) -> (r: usize)
    ensures
        r == tree_rows_visible(state@, side_rows as int),
{
    let taken: usize = if state.replace_mode {
        3
    } else {
        2
    };
    if side_rows < taken {
        0
    } else {
        side_rows - taken
    }
}

// ---------------------------------------------------------------------
// Laws
// ---------------------------------------------------------------------

/// How many hits the first `k` files have.
pub open spec fn hits_before(g: Seq<HitGroupView>, k: int) -> int
    decreases k,
{
    if k <= 0 || k > g.len() {
        0
    } else {
        hits_before(g, k - 1) + g[k - 1].hits.len()
    }
}

proof fn lemma_hits_before(g: Seq<HitGroupView>, a: int, b: int)
    requires
        0 <= a <= b <= g.len(),
    ensures
        0 <= hits_before(g, a) <= hits_before(g, b),
    decreases b,
{
    if a < b {
        lemma_hits_before(g, a, b - 1);
    } else if a > 0 {
        lemma_hits_before(g, a - 1, b - 1);
    }
}

proof fn lemma_row(g: Seq<HitGroupView>, k: int, i: int, f: int, x: int)
    requires
        0 <= k <= f < g.len(),
        0 <= x < g[f].hits.len(),
        i == hits_before(g, f) + x,
        hits_before(g, g.len() as int) + g.len() <= usize::MAX,
    ensures
        tree_row_from(g, k, i, hits_before(g, k) + k, hits_before(g, k)) == f + 1 + i,
    decreases f - k,
{
    let n = g[k].hits.len() as int;
    lemma_hits_before(g, k, g.len() as int);
    lemma_hits_before(g, k + 1, g.len() as int);
    lemma_hits_before(g, f, g.len() as int);
    lemma_hits_before(g, f + 1, g.len() as int);
    assert(hits_before(g, k + 1) == hits_before(g, k) + n);
    assert(hits_before(g, f + 1) == hits_before(g, f) + g[f].hits.len());
    if k < f {
        lemma_hits_before(g, k + 1, f);
        lemma_row(g, k + 1, i, f, x);
    }
}

/// In the list every file has a row, and its hits have the rows below it:
/// the row of a hit counts the hits before it and the files up to its own.
pub proof fn a_hit_stands_below_its_file(g: Seq<HitGroupView>, f: int, x: int)
    requires
        0 <= f < g.len(),
        0 <= x < g[f].hits.len(),
        hits_before(g, g.len() as int) + g.len() <= usize::MAX,
    ensures
        tree_row(g, hits_before(g, f) + x) == hits_before(g, f) + x + f + 1,
{
    lemma_row(g, 0, hits_before(g, f) + x, f, x);
}

/// A preview shows its line in view, a third down or as near to that as the
/// start of the file allows.
pub proof fn a_preview_shows_its_line(line: int, rows: int)
    requires
        line >= 0,
        rows > 0,
    ensures
        0 <= preview_top(line, rows) <= line < preview_top(line, rows) + rows,
        preview_top(line, rows) > 0 ==> line - preview_top(line, rows) == rows / 3,
{
}

/// Asking for a search asks for the query as it stands, with the switches
/// as they stand, behind what was asked for before.
pub proof fn a_search_is_asked_for_as_it_stands(s: SearchView)
    ensures
        ({
            let q = queued(s);
            let n = s.pending_search.len() as int;
            &&& q.pending_search.len() == n + 1
            &&& q.pending_search.subrange(0, n) == s.pending_search
            &&& q.pending_search[n].query == s.query.before + s.query.after
            &&& q.pending_search[n].case_sensitive == s.case_sensitive
            &&& q.pending_search[n].use_regex == s.use_regex
            &&& q.hit_replacements.len() == 0
            &&& q.query == s.query
            &&& q.selection == s.selection
            &&& q.flat_hits == s.flat_hits
        }),
{
    let n = s.pending_search.len() as int;
    assert(queued(s).pending_search.subrange(0, n) =~= s.pending_search);
}

} // verus!
