//! The list of completions that pops up while an identifier is typed.

use vstd::prelude::*;

use crate::buffers;
use crate::buffers::{BufferEdits, EditsView};
use crate::chars;
use crate::chars::{is_word_char, same_text};
use crate::columns;
use crate::columns::{char_to_cursor, cursor_to_char, grapheme_col_to_char, Cursor};
use crate::command::{Command, DispatchOutcome};
use crate::edit;
use crate::edits;
use crate::edits::{bump, bump_u64, BufferView, EditedBuffer};
use crate::isearch;
use crate::isearch::fold;
use crate::kill;
use crate::lsp_state;
use crate::lsp_state::{keep_visible, step_in_list};
use crate::paths::CanonPath;
use crate::replace_one;
use crate::seqs;
use crate::tabs::{Tab, TabId, TabView, Tabs, TabsView};
use crate::text;
use crate::text::{
    rope_clone, rope_insert, rope_len_lines, rope_line_to_char, rope_remove, rope_slice,
};
use crate::words;
use crate::words::text_of_cols;
use crate::truth;
use crate::undo;

verus! {

// ---------------------------------------------------------------------
// State
// ---------------------------------------------------------------------

/// One completion that a server offers.
pub struct Completion {
    pub label: String,
    pub detail: Option<String>,
    pub sort_text: Option<String>,
    pub insert_text: Option<String>,
    /// The text that the server wants in place of the prefix.
    pub text_edit: Option<String>,
    pub kind: Option<u32>,
    pub resolve_needed: bool,
    pub resolve_data: Option<String>,
}

#[verifier::ext_equal]
pub struct CompletionView {
    pub label: Seq<char>,
    pub detail: Option<Seq<char>>,
    pub sort_text: Option<Seq<char>>,
    pub insert_text: Option<Seq<char>>,
    pub text_edit: Option<Seq<char>>,
    pub kind: Option<u32>,
    pub resolve_needed: bool,
    pub resolve_data: Option<Seq<char>>,
}

impl View for Completion {
    type V = CompletionView;

    open spec fn view(&self) -> CompletionView {
        CompletionView {
            label: self.label@,
            detail: kill::opt_text(self.detail),
            sort_text: kill::opt_text(self.sort_text),
            insert_text: kill::opt_text(self.insert_text),
            text_edit: kill::opt_text(self.text_edit),
            kind: self.kind,
            resolve_needed: self.resolve_needed,
            resolve_data: kill::opt_text(self.resolve_data),
        }
    }
}

impl CompletionView {
    /// The text that the completion puts in.
    pub open spec fn insertion(self) -> Seq<char> {
        match self.text_edit {
            Some(t) => t,
            None => match self.insert_text {
                Some(t) => t,
                None => self.label,
            },
        }
    }
}

fn copy_text(s: &Option<String>) -> (r: Option<String>)
    ensures
        kill::opt_text(r) == kill::opt_text(*s),
{
    match s {
        Some(t) => Some(t.clone()),
        None => None,
    }
}

impl Completion {
    pub fn copy(&self) -> (c: Completion)
        ensures
            c@ == self@,
    {
        Completion {
            label: self.label.clone(),
            detail: copy_text(&self.detail),
            sort_text: copy_text(&self.sort_text),
            insert_text: copy_text(&self.insert_text),
            text_edit: copy_text(&self.text_edit),
            kind: self.kind,
            resolve_needed: self.resolve_needed,
            resolve_data: copy_text(&self.resolve_data),
        }
    }

    pub fn insertion(&self) -> (s: String)
        ensures
            s@ == self@.insertion(),
    {
        match &self.text_edit {
            Some(t) => t.clone(),
            None => match &self.insert_text {
                Some(t) => t.clone(),
                None => self.label.clone(),
            },
        }
    }
}

pub open spec fn item_views(s: Seq<Completion>) -> Seq<CompletionView> {
    Seq::new(s.len(), |i: int| s[i]@)
}

/// A list that is shown.
pub struct CompletionSession {
    pub tab: TabId,
    pub path: CanonPath,
    pub seq: u64,
    /// Where the identifier starts that is being completed.
    pub prefix_line: usize,
    pub prefix_start_col: usize,
    pub items: Vec<Completion>,
    /// Which of the items fit what was typed.
    pub filtered: Vec<usize>,
    pub selected: usize,
    pub scroll: usize,
}

#[verifier::ext_equal]
pub struct SessionView {
    pub tab: TabId,
    pub path: Seq<char>,
    pub seq: u64,
    pub prefix_line: usize,
    pub prefix_start_col: usize,
    pub items: Seq<CompletionView>,
    pub filtered: Seq<usize>,
    pub selected: usize,
    pub scroll: usize,
}

impl View for CompletionSession {
    type V = SessionView;

    open spec fn view(&self) -> SessionView {
        SessionView {
            tab: self.tab,
            path: self.path@,
            seq: self.seq,
            prefix_line: self.prefix_line,
            prefix_start_col: self.prefix_start_col,
            items: item_views(self.items@),
            filtered: self.filtered@,
            selected: self.selected,
            scroll: self.scroll,
        }
    }
}

pub struct CompletionsState {
    pub session: Option<CompletionSession>,
}

impl View for CompletionsState {
    type V = Option<SessionView>;

    open spec fn view(&self) -> Option<SessionView> {
        match self.session {
            Some(s) => Some(s@),
            None => None,
        }
    }
}

impl CompletionsState {
    pub fn new() -> (s: CompletionsState)
        ensures
            s@ is None,
    {
        CompletionsState { session: None }
    }

    pub fn dismiss(&mut self)
        ensures
            final(self)@ is None,
    {
        self.session = None;
    }
}

/// A request for completions.
pub struct CompletionRequest {
    pub path: CanonPath,
    pub line: usize,
    pub col: usize,
    pub trigger: Option<char>,
    pub seq: u64,
}

#[verifier::ext_equal]
pub struct CompletionRequestView {
    pub path: Seq<char>,
    pub line: usize,
    pub col: usize,
    pub trigger: Option<char>,
    pub seq: u64,
}

impl View for CompletionRequest {
    type V = CompletionRequestView;

    open spec fn view(&self) -> CompletionRequestView {
        CompletionRequestView {
            path: self.path@,
            line: self.line,
            col: self.col,
            trigger: self.trigger,
            seq: self.seq,
        }
    }
}

/// A request for the rest of a completion that was taken.
pub struct ResolveRequest {
    pub path: CanonPath,
    pub item: Completion,
}

#[verifier::ext_equal]
pub struct ResolveRequestView {
    pub path: Seq<char>,
    pub item: CompletionView,
}

impl View for ResolveRequest {
    type V = ResolveRequestView;

    open spec fn view(&self) -> ResolveRequestView {
        ResolveRequestView { path: self.path@, item: self.item@ }
    }
}

pub struct CompletionsPending {
    pub seq: u64,
    pub pending: Vec<CompletionRequest>,
    pub resolves: Vec<ResolveRequest>,
}

#[verifier::ext_equal]
pub struct CompletionsPendingView {
    pub seq: u64,
    pub pending: Seq<CompletionRequestView>,
    pub resolves: Seq<ResolveRequestView>,
}

pub open spec fn request_views(s: Seq<CompletionRequest>) -> Seq<CompletionRequestView> {
    Seq::new(s.len(), |i: int| s[i]@)
}

pub open spec fn resolve_views(s: Seq<ResolveRequest>) -> Seq<ResolveRequestView> {
    Seq::new(s.len(), |i: int| s[i]@)
}

impl View for CompletionsPending {
    type V = CompletionsPendingView;

    open spec fn view(&self) -> CompletionsPendingView {
        CompletionsPendingView {
            seq: self.seq,
            pending: request_views(self.pending@),
            resolves: resolve_views(self.resolves@),
        }
    }
}

pub open spec fn nothing_pending() -> CompletionsPendingView {
    CompletionsPendingView { seq: 0, pending: seq![], resolves: seq![] }
}

pub open spec fn request_queued(
    p: CompletionsPendingView,
    path: Seq<char>,
    line: usize,
    col: usize,
    trigger: Option<char>,
) -> CompletionsPendingView {
    let seq = edits::bumped(p.seq);
    CompletionsPendingView {
        seq,
        pending: p.pending.push(CompletionRequestView { path, line, col, trigger, seq }),
        ..p
    }
}

impl CompletionsPending {
    pub fn new() -> (p: CompletionsPending)
        ensures
            p@ == nothing_pending(),
    {
        let p = CompletionsPending { seq: 0, pending: Vec::new(), resolves: Vec::new() };
        assert(p@ =~= nothing_pending());
        p
    }

    pub fn queue_request(&mut self, path: CanonPath, line: usize, col: usize, trigger: Option<char>)
        ensures
            final(self)@ == request_queued(old(self)@, path@, line, col, trigger),
    {
        let seq: u64 = bump_u64(self.seq);
        self.seq = seq;
        self.pending.push(CompletionRequest { path, line, col, trigger, seq });
        assert(self@ =~= request_queued(old(self)@, path@, line, col, trigger));
    }

    pub fn queue_resolve(&mut self, path: CanonPath, item: Completion)
        ensures
            final(self)@ == (CompletionsPendingView {
                resolves: old(self)@.resolves.push(
                    ResolveRequestView { path: path@, item: item@ },
                ),
                ..old(self)@
            }),
    {
        self.resolves.push(ResolveRequest { path, item });
        assert(self@.resolves =~= old(self)@.resolves.push(
            ResolveRequestView { path: path@, item: item@ },
        ));
    }
}

// ---------------------------------------------------------------------
// What fits what was typed
// ---------------------------------------------------------------------

/// The label starts with the prefix, whatever the case of its letters.
pub open spec fn fits(c: CompletionView, prefix: Seq<char>) -> bool {
    let l = isearch::folded(c.label);
    let p = isearch::folded(prefix);
    p.len() <= l.len() && l.subrange(0, p.len() as int) == p
}

fn item_fits(c: &Completion, folded_prefix: &Vec<char>, prefix: &str) -> (r: bool)
    requires
        folded_prefix@ == isearch::folded(prefix@),
    ensures
        r == fits(c@, prefix@),
{
    let l = fold(c.label.as_str());
    let n: usize = folded_prefix.len();
    if n > l.len() {
        return false;
    }
    let mut i: usize = 0;
    while i < n
        invariant
            i <= n,
            n == folded_prefix.len(),
            n <= l.len(),
            l@ == isearch::folded(c@.label),
            folded_prefix@ == isearch::folded(prefix@),
            forall|j: int| 0 <= j < i ==> l@[j] == folded_prefix@[j],
        decreases n - i,
    {
        if l[i] != folded_prefix[i] {
            assert(l@.subrange(0, n as int)[i as int] != folded_prefix@[i as int]);
            return false;
        }
        i = i + 1;
    }
    assert(l@.subrange(0, n as int) =~= folded_prefix@);
    true
}

/// Those of the first `n` items that fit, by index.
pub open spec fn fitting(items: Seq<CompletionView>, prefix: Seq<char>, n: int) -> Seq<usize>
    decreases n,
{
    if n <= 0 {
        seq![]
    } else if fits(items[n - 1], prefix) {
        fitting(items, prefix, n - 1).push((n - 1) as usize)
    } else {
        fitting(items, prefix, n - 1)
    }
}

/// Which items fit a prefix.
pub fn refilter(items: &Vec<Completion>, prefix: &str) -> (v: Vec<usize>)
    ensures
        v@ == fitting(item_views(items@), prefix@, items.len() as int),
{
    let ghost q = item_views(items@);
    let p = fold(prefix);
    let mut v: Vec<usize> = Vec::new();
    let mut i: usize = 0;
    while i < items.len()
        invariant
            i <= items.len(),
            q == item_views(items@),
            p@ == isearch::folded(prefix@),
            v@ == fitting(q, prefix@, i as int),
        decreases items.len() - i,
    {
        assert(q[i as int] == items[i as int]@);
        if item_fits(&items[i], &p, prefix) {
            v.push(i);
        }
        i = i + 1;
    }
    v
}

/// What fits is an item, and fits.
pub proof fn fitting_items_fit(items: Seq<CompletionView>, prefix: Seq<char>, n: int, k: int)
    requires
        0 <= n <= items.len(),
        n <= usize::MAX,
        0 <= k < fitting(items, prefix, n).len(),
    ensures
        fitting(items, prefix, n)[k] < n,
        fits(items[fitting(items, prefix, n)[k] as int], prefix),
    decreases n,
{
    if n > 0 {
        let rest = fitting(items, prefix, n - 1);
        if k < rest.len() {
            fitting_items_fit(items, prefix, n - 1, k);
        }
    }
}

/// What was typed of the identifier that is being completed, if the cursor
/// is still behind its start.
pub open spec fn typed_prefix(t: Seq<char>, c: Cursor, s: SessionView) -> Option<Seq<char>> {
    if c.line != s.prefix_line || c.col < s.prefix_start_col || c.line >= text::line_count(t) {
        None
    } else {
        Some(words::cols_text(t, c.line as int, s.prefix_start_col as int, c.col as int))
    }
}

fn find_prefix(rope: &ropey::Rope, c: Cursor, s: &CompletionSession) -> (r: Option<String>)
    ensures
        match r {
            Some(p) => typed_prefix(text::rope_text(*rope), c, s@) == Some(p@),
            None => typed_prefix(text::rope_text(*rope), c, s@) is None,
        },
{
    if c.line != s.prefix_line || c.col < s.prefix_start_col || c.line >= rope_len_lines(rope) {
        None
    } else {
        Some(text_of_cols(rope, c.line, s.prefix_start_col, c.col))
    }
}

pub open spec fn is_index(i: usize) -> spec_fn(usize) -> bool {
    |j: usize| j == i
}

/// Where the item that was selected stands among those that fit now.
pub open spec fn kept_selection(s: SessionView, f: Seq<usize>) -> int {
    if s.selected < s.filtered.len() {
        match seqs::first_index(f, is_index(s.filtered[s.selected as int])) {
            Some(k) => k,
            None => 0,
        }
    } else {
        0
    }
}

/// The list after more or less was typed. It goes away when its tab is no
/// longer the active one, when nothing fits, or when all that fits is what
/// already stands there.
pub open spec fn refreshed(c: Option<SessionView>, t: TabsView, e: EditsView) -> Option<SessionView> {
    match c {
        None => None,
        Some(s) => match t.find(s.tab) {
            None => None,
            Some(i) => if t.active != Some(s.tab) || !e.has(t.open[i].path) {
                None
            } else {
                match typed_prefix(e.buffers[t.open[i].path].text, t.open[i].cursor, s) {
                    None => None,
                    Some(prefix) => {
                        let f = fitting(s.items, prefix, s.items.len() as int);
                        if f.len() == 0 {
                            None
                        } else if f.len() == 1 && s.items[f[0] as int].insertion() == prefix {
                            None
                        } else {
                            let k = kept_selection(s, f);
                            Some(
                                SessionView {
                                    filtered: f,
                                    selected: k as usize,
                                    scroll: if k < s.scroll {
                                        k as usize
                                    } else {
                                        s.scroll
                                    },
                                    ..s
                                },
                            )
                        }
                    },
                }
            },
        },
    }
}

fn find_index(f: &Vec<usize>, x: usize) -> (r: Option<usize>)
    ensures
        match r {
            Some(k) => seqs::first_index(f@, is_index(x)) == Some(k as int),
            None => seqs::first_index(f@, is_index(x)) is None,
        },
{
    let mut i: usize = 0;
    while i < f.len()
        invariant
            i <= f.len(),
            forall|j: int| 0 <= j < i ==> !is_index(x)(#[trigger] f@[j]),
        decreases f.len() - i,
    {
        if f[i] == x {
            proof {
                seqs::lemma_first_is(f@, is_index(x), 0, i as int);
            }
            return Some(i);
        }
        i = i + 1;
    }
    proof {
        seqs::lemma_first_none(f@, is_index(x), 0);
    }
    None
}

/// Fits the list to what is typed now.
pub fn refresh_completion_filter(
    tabs: &Tabs,
    edits: &BufferEdits,
    completions: &mut CompletionsState,
)
    ensures
        final(completions)@ == refreshed(old(completions)@, tabs@, edits@),
{
    let taken = completions.session.take();
    let mut s = match taken {
        Some(s) => s,
        None => {
            return;
        },
    };
    let ghost s0 = s@;
    if tabs.active != Some(s.tab) {
        return;
    }
    let i: usize = match tabs.find(s.tab) {
        Some(i) => i,
        None => {
            return;
        },
    };
    let tab = tabs.at(i);
    let eb = match edits.get(tab.path.as_str()) {
        Some(eb) => eb,
        None => {
            return;
        },
    };
    let prefix = match find_prefix(&eb.rope, tab.cursor, &s) {
        Some(p) => p,
        None => {
            return;
        },
    };
    let f = refilter(&s.items, prefix.as_str());
    if f.len() == 0 {
        return;
    }
    if f.len() == 1 {
        proof {
            fitting_items_fit(s0.items, prefix@, s.items.len() as int, 0);
            assert(s0.items[f@[0] as int] == s.items[f@[0] as int]@);
        }
        let whole = s.items[f[0]].insertion();
        if same_text(whole.as_str(), prefix.as_str()) {
            return;
        }
    }
    let k: usize = if s.selected < s.filtered.len() {
        match find_index(&f, s.filtered[s.selected]) {
            Some(k) => k,
            None => 0,
        }
    } else {
        0
    };
    s.filtered = f;
    s.selected = k;
    if k < s.scroll {
        s.scroll = k;
    }
    completions.session = Some(s);
}

/// What a command that was run means for the list and for the requests: an
/// identifier character asks anew, a deletion fits the list, all else ends
/// it.
pub open spec fn triggered(
    cmd: Command,
    t: TabsView,
    e: EditsView,
    c: Option<SessionView>,
    p: CompletionsPendingView,
) -> (Option<SessionView>, CompletionsPendingView) {
    match cmd {
        Command::InsertChar(ch) if chars::word_char(ch) => match buffers::active_loaded(t, e) {
            Some(i) => if t.open[i].preview {
                (c, p)
            } else {
                (
                    refreshed(c, t, e),
                    request_queued(
                        p,
                        t.open[i].path,
                        t.open[i].cursor.line,
                        t.open[i].cursor.col,
                        Some(ch),
                    ),
                )
            },
            None => (c, p),
        },
        Command::DeleteBack => (refreshed(c, t, e), p),
        Command::DeleteForward => (refreshed(c, t, e), p),
        _ => (None, p),
    }
}

/// Keeps list and requests in step with a command that was run.
pub fn handle_completion_trigger(
    cmd: &Command,
    tabs: &Tabs,
    edits: &BufferEdits,
    completions: &mut CompletionsState,
    completions_pending: &mut CompletionsPending,
)
    ensures
        (final(completions)@, final(completions_pending)@) == triggered(
            *cmd,
            tabs@,
            edits@,
            old(completions)@,
            old(completions_pending)@,
        ),
{
    match cmd {
        Command::InsertChar(c) => {
            if !is_word_char(*c) {
                completions.dismiss();
                return;
            }
            let i: usize = match tabs.active_index() {
                Some(i) => i,
                None => {
                    return;
                },
            };
            let tab = tabs.at(i);
            if tab.preview || !edits.has(tab.path.as_str()) {
                return;
            }
            refresh_completion_filter(tabs, edits, completions);
            completions_pending.queue_request(
                tab.path.copy(),
                tab.cursor.line,
                tab.cursor.col,
                Some(*c),
            );
        },
        Command::DeleteBack | Command::DeleteForward => {
            refresh_completion_filter(tabs, edits, completions);
        },
        _ => completions.dismiss(),
    }
}

// ---------------------------------------------------------------------
// Taking a completion
// ---------------------------------------------------------------------

/// The list with the selection moved.
pub open spec fn moved(s: SessionView, down: bool) -> SessionView {
    if s.filtered.len() == 0 {
        s
    } else {
        let n = lsp_state::list_step(s.selected as int, down, s.filtered.len() as int);
        SessionView {
            selected: n as usize,
            scroll: lsp_state::kept_visible(n, s.scroll as int) as usize,
            ..s
        }
    }
}

fn move_selection(s: &mut CompletionSession, down: bool)
    ensures
        final(s)@ == moved(old(s)@, down),
{
    let n: usize = s.filtered.len();
    if n == 0 {
        return;
    }
    s.selected = step_in_list(s.selected, down, n);
    s.scroll = keep_visible(s.selected, s.scroll);
}

/// The item that is selected.
pub open spec fn chosen(s: SessionView) -> Option<CompletionView> {
    if s.selected < s.filtered.len() && s.filtered[s.selected as int] < s.items.len() {
        Some(s.items[s.filtered[s.selected as int] as int])
    } else {
        None
    }
}

/// The tab and its buffer with the typed prefix replaced by `put`.
pub open spec fn completed(t: TabView, b: BufferView, clock: u64, s: SessionView, put: Seq<char>) -> (
    TabView,
    BufferView,
) {
    let line = t.cursor.line as int;
    let from = text::line_start(b.text, line) + columns::col_offset(
        columns::line_cols(b.text, line),
        s.prefix_start_col as int,
    );
    let to = columns::cursor_index(b.text, t.cursor);
    let new_text = replace_one::spliced(b.text, from, to - from, put);
    let after = columns::index_cursor(new_text, from + put.len());
    (
        edit::at_cursor(t, after),
        edit::edited(
            b,
            clock,
            new_text,
            edits::replace_ops(from, b.text.subrange(from, to), put),
            t.cursor,
            after,
        ),
    )
}

/// What taking the selected completion does. The list goes away in any
/// case.
pub open spec fn committed(
    s: SessionView,
    p: CompletionsPendingView,
    t: TabsView,
    e: EditsView,
) -> (CompletionsPendingView, TabsView, EditsView) {
    match (chosen(s), t.find(s.tab)) {
        (Some(item), Some(i)) => {
            let tab = t.open[i];
            if t.active != Some(s.tab) || !e.has(tab.path) || typed_prefix(
                e.buffers[tab.path].text,
                tab.cursor,
                s,
            ) is None {
                (p, t, e)
            } else {
                let (tab2, b2) = completed(
                    tab,
                    e.buffers[tab.path],
                    e.clock,
                    s,
                    item.insertion(),
                );
                (
                    if item.resolve_needed {
                        CompletionsPendingView {
                            resolves: p.resolves.push(
                                ResolveRequestView { path: tab.path, item },
                            ),
                            ..p
                        }
                    } else {
                        p
                    },
                    t.with_tab(i, tab2),
                    e.with_buffer(tab.path, b2, edits::bumped(e.clock)),
                )
            }
        },
        _ => (p, t, e),
    }
}

fn complete_in(tab: &mut Tab, eb: &mut EditedBuffer, clock: u64, s: &CompletionSession, put: String)
    requires
        typed_prefix(old(eb)@.text, old(tab)@.cursor, s@) is Some,
    ensures
        (final(tab)@, final(eb)@) == completed(old(tab)@, old(eb)@, clock, s@, put@),
        truth::truthful(old(eb)@) ==> truth::truthful(final(eb)@),
{
    let ghost t = eb@.text;
    let line: usize = tab.cursor.line;
    let before = tab.cursor;
    proof {
        text::lemma_line_len(t, line as int);
        let g = columns::line_cols(t, line as int);
    }
    let base: usize = rope_line_to_char(&eb.rope, line);
    let off: usize = grapheme_col_to_char(&eb.rope, line, s.prefix_start_col);
    let to: usize = cursor_to_char(&before, &eb.rope);
    proof {
        let g = columns::line_cols(t, line as int);
        let n = g.len() as int;
        let x = if s.prefix_start_col < n { s.prefix_start_col as int } else { n };
        let y = if before.col < n { before.col as int } else { n };
        columns::lemma_cluster_chars(g, x, y);
    }
    let from: usize = base + off;
    let gone = rope_slice(&eb.rope, from, to);
    let mut rope = rope_clone(&eb.rope);
    rope_remove(&mut rope, from, to);
    rope_insert(&mut rope, from, put.as_str());
    let n: usize = put.as_str().unicode_len();
    let total: usize = crate::text::rope_len(&rope);
    let after = char_to_cursor(from + n, &rope);
    bump(eb, rope);
    let seq: u64 = bump_u64(clock);
    eb.history.record_replace(seq, from, gone, put, before, after, None);
    tab.cursor = after;
    proof {
        if truth::truthful(old(eb)@) {
            truth::lemma_replacement(
                old(eb)@.history,
                t,
                seq,
                from as int,
                to - from,
                put@,
                before,
                after,
                None,
            );
        }
    }
}

fn commit_active(
    s: &CompletionSession,
    completions_pending: &mut CompletionsPending,
    tabs: &mut Tabs,
    edits: &mut BufferEdits,
)
    ensures
        (final(completions_pending)@, final(tabs)@, final(edits)@) == committed(
            s@,
            old(completions_pending)@,
            old(tabs)@,
            old(edits)@,
        ),
        truth::all_truthful(old(edits)@) ==> truth::all_truthful(final(edits)@),
{
    if s.selected >= s.filtered.len() {
        return;
    }
    let k: usize = s.filtered[s.selected];
    if k >= s.items.len() {
        return;
    }
    assert(s@.items[k as int] == s.items[k as int]@);
    let i: usize = match tabs.find(s.tab) {
        Some(i) => i,
        None => {
            return;
        },
    };
    match tabs.active {
        Some(a) => {
            if a.0 != s.tab.0 {
                return;
            }
        },
        None => {
            return;
        },
    }
    let mut tab = tabs.at(i).copy();
    let ghost e0 = edits@;
    let path = tab.path.text.clone();
    let owed: bool = match edits.get(path.as_str()) {
        Some(eb) => find_prefix(&eb.rope, tab.cursor, s).is_some(),
        None => false,
    };
    if !owed {
        return;
    }
    let taken = edits.take(path.as_str());
    let mut eb = match taken {
        Some(eb) => eb,
        None => {
            return;
        },
    };
    let clock: u64 = edits.clock;
    complete_in(&mut tab, &mut eb, clock, s, s.items[k].insertion());
    edits.clock = bump_u64(clock);
    let ghost b = eb@;
    let target = tab.path.copy();
    edits.put(path, eb);
    tabs.set(i, tab);
    proof {
        buffers::lemma_take_put(e0, path@, b, edits::bumped(clock));
        truth::lemma_kept(e0, path@, b, edits::bumped(clock));
        assert(edits@ =~= e0.with_buffer(path@, b, edits::bumped(clock)));
    }
    if s.items[k].resolve_needed {
        completions_pending.queue_resolve(target, s.items[k].copy());
    }
}

/// What a command does while the list is shown, and whether the list keeps
/// it to itself.
pub open spec fn overlay(
    cmd: Command,
    c: Option<SessionView>,
    p: CompletionsPendingView,
    t: TabsView,
    e: EditsView,
) -> (Option<SessionView>, CompletionsPendingView, TabsView, EditsView, bool) {
    match c {
        None => (c, p, t, e, false),
        Some(s) => match cmd {
            Command::CursorUp => (Some(moved(s, false)), p, t, e, true),
            Command::CursorDown => (Some(moved(s, true)), p, t, e, true),
            Command::InsertNewline | Command::InsertTab => {
                let (p2, t2, e2) = committed(s, p, t, e);
                (None, p2, t2, e2, true)
            },
            Command::Abort => (None, p, t, e, true),
            _ => (c, p, t, e, false),
        },
    }
}

/// Routes a command through the list, if it is shown.
pub fn run_overlay_command(
    cmd: Command,
    completions: &mut CompletionsState,
    completions_pending: &mut CompletionsPending,
    tabs: &mut Tabs,
    edits: &mut BufferEdits,
) -> (r: Option<DispatchOutcome>)
    ensures
        (
            final(completions)@,
            final(completions_pending)@,
            final(tabs)@,
            final(edits)@,
            r is Some,
        ) == overlay(
            cmd,
            old(completions)@,
            old(completions_pending)@,
            old(tabs)@,
            old(edits)@,
        ),
        r is Some ==> r->0 is Continue,
        truth::all_truthful(old(edits)@) ==> truth::all_truthful(final(edits)@),
{
    let taken = completions.session.take();
    let mut s = match taken {
        Some(s) => s,
        None => {
            return None;
        },
    };
    match cmd {
        Command::CursorUp => {
            move_selection(&mut s, false);
            completions.session = Some(s);
        },
        Command::CursorDown => {
            move_selection(&mut s, true);
            completions.session = Some(s);
        },
        Command::InsertNewline | Command::InsertTab => {
            commit_active(&s, completions_pending, tabs, edits);
        },
        Command::Abort => {},
        _ => {
            completions.session = Some(s);
            return None;
        },
    }
    Some(DispatchOutcome::Continue)
}

// ---------------------------------------------------------------------
// Laws
// ---------------------------------------------------------------------

/// Taking a completion replaces what was typed of it, and nothing else: the
/// text before the prefix and behind the cursor stays, the piece that goes
/// is the prefix that the list was filtered by, and the cursor stands
/// behind what was put in. One undo takes it back.
pub proof fn taking_replaces_the_typed_prefix(
    s: SessionView,
    p: CompletionsPendingView,
    t: TabsView,
    e: EditsView,
    cmd: Command,
    i: int,
)
    requires
        cmd is InsertNewline || cmd is InsertTab,
        t.find(s.tab) == Some(i),
        t.active == Some(s.tab),
        e.has(t.open[i].path),
        s.selected < s.filtered.len(),
        s.filtered[s.selected as int] < s.items.len(),
        t.open[i].cursor.line == s.prefix_line,
        s.prefix_start_col <= t.open[i].cursor.col,
        s.prefix_line < text::line_count(e.buffers[t.open[i].path].text),
        columns::clustered(e.buffers[t.open[i].path].text, s.prefix_line as int),
    ensures
        ({
            let (c2, p2, t2, e2, used) = overlay(cmd, Some(s), p, t, e);
            let tab = t.open[i];
            let old_text = e.buffers[tab.path].text;
            let item = s.items[s.filtered[s.selected as int] as int];
            let put = match item.text_edit {
                Some(x) => x,
                None => match item.insert_text {
                    Some(x) => x,
                    None => item.label,
                },
            };
            let from = columns::cursor_index(
                old_text,
                Cursor { col: s.prefix_start_col, ..tab.cursor },
            );
            let to = columns::cursor_index(old_text, tab.cursor);
            let b2 = e2.buffers[tab.path];
            &&& used
            &&& c2 is None
            &&& 0 <= from <= to <= old_text.len()
            &&& b2.text == old_text.subrange(0, from) + put + old_text.subrange(
                to,
                old_text.len() as int,
            )
            &&& typed_prefix(old_text, tab.cursor, s) == Some(old_text.subrange(from, to))
            &&& t2.open[i] == (TabView {
                cursor: columns::index_cursor(b2.text, from + put.len()),
                ..tab
            })
            &&& crate::tabs::others_kept(t, t2, i)
            &&& forall|q: Seq<char>|
                q != tab.path ==> #[trigger] e2.buffers[q] == e.buffers[q] && e2.has(q) == e.has(q)
            &&& old_text != b2.text ==> undo::buffer_undone(b2).text == old_text
            &&& item.resolve_needed ==> p2.resolves == p.resolves.push(
                ResolveRequestView { path: tab.path, item },
            )
            &&& !item.resolve_needed ==> p2 == p
        }),
{
    let tab = t.open[i];
    let b = e.buffers[tab.path];
    let line = tab.cursor.line as int;
    let g = columns::line_cols(b.text, line);
    let c0 = Cursor { col: s.prefix_start_col, ..tab.cursor };
    let from = columns::cursor_index(b.text, c0);
    let to = columns::cursor_index(b.text, tab.cursor);
    seqs::lemma_first_from(t.open, crate::tabs::by_id(s.tab), 0);
    columns::a_column_counts_clusters(b.text, c0);
    columns::a_column_counts_clusters(b.text, tab.cursor);
    text::lemma_line_len(b.text, line);
    let n = g.len() as int;
    let x = if s.prefix_start_col < n { s.prefix_start_col as int } else { n };
    let y = if tab.cursor.col < n { tab.cursor.col as int } else { n };
    columns::lemma_cluster_chars(g, x, y);
    let item = s.items[s.filtered[s.selected as int] as int];
    let put = item.insertion();
    let cut = text::removed(b.text, from, to);
    assert(cut.subrange(0, from) =~= b.text.subrange(0, from));
    assert(cut.subrange(from, cut.len() as int) =~= b.text.subrange(to, b.text.len() as int));
    let a = text::line_start(b.text, line);
    assert(text::line_content(b.text, line).subrange(from - a, to - a) =~= b.text.subrange(
        from,
        to,
    ));
    let ops = edits::replace_ops(from, b.text.subrange(from, to), put);
    truth::lemma_replace_ops(b.text, from, to - from, put);
    if ops.len() > 0 {
        undo::undo_takes_back_a_recorded_edit(
            b,
            edits::bumped(e.clock),
            ops,
            tab.cursor,
            columns::index_cursor(replace_one::spliced(b.text, from, to - from, put), from + put.len()),
        );
    }
}

/// Every item whose label starts with what was typed is offered, in the
/// order of the server, and no other; each once.
pub proof fn offered_items_are_those_that_fit(items: Seq<CompletionView>, prefix: Seq<char>, n: int)
    requires
        0 <= n <= items.len() <= usize::MAX,
    ensures
        ({
            let f = fitting(items, prefix, n);
            &&& forall|k: int, m: int| 0 <= k < m < f.len() ==> f[k] < f[m]
            &&& forall|k: int| 0 <= k < f.len() ==> #[trigger] f[k] < n
            &&& forall|x: int| #![trigger items[x]]
                0 <= x < n ==> (f.contains(x as usize) <==> ({
                    let l = isearch::folded(items[x].label);
                    let p = isearch::folded(prefix);
                    p.len() <= l.len() && forall|j: int|
                        0 <= j < p.len() ==> l[j] == #[trigger] p[j]
                }))
        }),
    decreases n,
{
    if n > 0 {
        offered_items_are_those_that_fit(items, prefix, n - 1);
        let f = fitting(items, prefix, n);
        let r = fitting(items, prefix, n - 1);
        let p = isearch::folded(prefix);
        assert forall|x: int| #![trigger items[x]]
            0 <= x < n implies (f.contains(x as usize) <==> ({
            let l = isearch::folded(items[x].label);
            p.len() <= l.len() && forall|j: int| 0 <= j < p.len() ==> l[j] == #[trigger] p[j]
        })) by {
            let l = isearch::folded(items[x].label);
            if p.len() <= l.len() {
                if forall|j: int| 0 <= j < p.len() ==> l[j] == #[trigger] p[j] {
                    assert(l.subrange(0, p.len() as int) =~= p);
                }
                if l.subrange(0, p.len() as int) == p {
                    assert forall|j: int| 0 <= j < p.len() implies l[j] == #[trigger] p[j] by {
                        assert(l.subrange(0, p.len() as int)[j] == l[j]);
                    }
                }
            }
            if r.contains(x as usize) {
                let k = choose|k: int| 0 <= k < r.len() && r[k] == x as usize;
                assert(f[k] == x as usize);
            }
            if f.contains(x as usize) {
                let k = choose|k: int| 0 <= k < f.len() && f[k] == x as usize;
                if k < r.len() {
                    assert(r[k] == x as usize);
                }
            }
            if x == n - 1 && fits(items[x], prefix) {
                assert(f[f.len() - 1] == x as usize);
            }
        }
    }
}

/// Typing on narrows the list: what fits a longer prefix fits a shorter
/// one, and a label fits itself.
pub proof fn typing_on_narrows_the_list(c: CompletionView, a: Seq<char>, b: Seq<char>)
    ensures
        fits(c, a + b) ==> fits(c, a),
        fits(c, c.label),
        fits(c, Seq::<char>::empty()),
{
    isearch::folding_goes_by_characters(a, b, 'a');
    let l = isearch::folded(c.label);
    let pa = isearch::folded(a);
    let p = isearch::folded(a + b);
    assert(l.subrange(0, l.len() as int) =~= l);
    assert(l.subrange(0, 0) =~= Seq::<char>::empty());
    if fits(c, a + b) {
        assert(l.subrange(0, pa.len() as int) =~= p.subrange(0, pa.len() as int));
        assert(p.subrange(0, pa.len() as int) =~= pa);
    }
}

/// As long as the list is up it shows what fits the text between its start
/// and the cursor, with the same item selected if that still fits.
pub proof fn the_list_follows_what_is_typed(s: SessionView, t: TabsView, e: EditsView)
    requires
        s.items.len() <= usize::MAX,
        refreshed(Some(s), t, e) is Some,
    ensures
        ({
            let r = refreshed(Some(s), t, e)->0;
            let i = t.find(s.tab)->0;
            let prefix = typed_prefix(e.buffers[t.open[i].path].text, t.open[i].cursor, s);
            &&& t.active == Some(s.tab)
            &&& t.find(s.tab) is Some
            &&& e.has(t.open[i].path)
            &&& t.open[i].cursor.line == s.prefix_line
            &&& t.open[i].cursor.col >= s.prefix_start_col
            &&& prefix is Some
            &&& r.filtered.len() > 0
            &&& r.filtered == fitting(s.items, prefix->0, s.items.len() as int)
            &&& r.selected < r.filtered.len()
            &&& s.selected < s.filtered.len() && r.filtered.contains(s.filtered[s.selected as int])
                ==> r.filtered[r.selected as int] == s.filtered[s.selected as int]
            &&& r.items == s.items
            &&& r.tab == s.tab
            &&& r.prefix_line == s.prefix_line
            &&& r.prefix_start_col == s.prefix_start_col
        }),
{
    let i = t.find(s.tab)->0;
    let prefix = typed_prefix(e.buffers[t.open[i].path].text, t.open[i].cursor, s)->0;
    let f = fitting(s.items, prefix, s.items.len() as int);
    lemma_fitting_len(s.items, prefix, s.items.len() as int);
    if s.selected < s.filtered.len() {
        let x = s.filtered[s.selected as int];
        seqs::lemma_first_from(f, is_index(x), 0);
        if f.contains(x) {
            let k = choose|k: int| 0 <= k < f.len() && f[k] == x;
            assert(is_index(x)(f[k]));
        }
        let k0 = seqs::first_from(f, is_index(x), 0);
        if k0 < f.len() {
            assert(is_index(x)(f[k0]));
        }
    }
}

proof fn lemma_fitting_len(items: Seq<CompletionView>, prefix: Seq<char>, n: int)
    requires
        0 <= n,
    ensures
        fitting(items, prefix, n).len() <= n,
    decreases n,
{
    if n > 0 {
        lemma_fitting_len(items, prefix, n - 1);
    }
}

/// Giving the list up changes nothing else.
pub proof fn giving_the_list_up_changes_nothing(
    s: SessionView,
    p: CompletionsPendingView,
    t: TabsView,
    e: EditsView,
)
    ensures
        overlay(Command::Abort, Some(s), p, t, e) == (None::<SessionView>, p, t, e, true),
{
}

/// Typing a letter of a word asks for what could follow, at the cursor, and
/// keeps a list that still fits; the delete keys only keep it, and any other
/// command gives it up.
pub proof fn typing_a_word_asks_for_completions(
    t: TabsView,
    e: EditsView,
    c: Option<SessionView>,
    p: CompletionsPendingView,
    ch: char,
    i: int,
)
    requires
        buffers::active_loaded(t, e) == Some(i),
        !t.open[i].preview,
    ensures
        ({
            let (c2, p2) = triggered(Command::InsertChar(ch), t, e, c, p);
            let n = p.pending.len() as int;
            let r = p2.pending[n];
            &&& chars::word_char(ch) ==> {
                &&& p2.pending.len() == n + 1
                &&& p2.pending.subrange(0, n) =~= p.pending
                &&& r.path == t.open[i].path
                &&& r.line == t.open[i].cursor.line
                &&& r.col == t.open[i].cursor.col
                &&& r.trigger == Some(ch)
                &&& c2 == refreshed(c, t, e)
                &&& p.seq < u64::MAX ==> r.seq == p.seq + 1
                &&& p2.seq == r.seq
            }
            &&& !chars::word_char(ch) ==> c2 is None && p2 == p
            &&& triggered(Command::DeleteBack, t, e, c, p) == (refreshed(c, t, e), p)
            &&& triggered(Command::DeleteForward, t, e, c, p) == (refreshed(c, t, e), p)
            &&& triggered(Command::Save, t, e, c, p) == (None::<SessionView>, p)
            &&& triggered(Command::InsertNewline, t, e, c, p) == (None::<SessionView>, p)
        }),
{
}

} // verus!
