//! What is asked of language servers and what waits for their answers.

use vstd::prelude::*;

use crate::input::{InputView, TextInput};
use crate::input;
use crate::maps::{PathMap, PathSet};
use crate::paths::CanonPath;
use crate::edits;
use crate::edits::bump_u64;

verus! {

// ---------------------------------------------------------------------
// Requests
// ---------------------------------------------------------------------

/// A request about a place in a file.
pub struct PlaceRequest {
    pub path: CanonPath,
    pub line: usize,
    pub col: usize,
    pub seq: u64,
}

#[verifier::ext_equal]
pub struct PlaceRequestView {
    pub path: Seq<char>,
    pub line: usize,
    pub col: usize,
    pub seq: u64,
}

impl View for PlaceRequest {
    type V = PlaceRequestView;

    open spec fn view(&self) -> PlaceRequestView {
        PlaceRequestView { path: self.path@, line: self.line, col: self.col, seq: self.seq }
    }
}

/// A request to give a name another spelling.
pub struct RenameRequest {
    pub path: CanonPath,
    pub line: usize,
    pub col: usize,
    pub new_name: String,
    pub seq: u64,
}

#[verifier::ext_equal]
pub struct RenameRequestView {
    pub path: Seq<char>,
    pub line: usize,
    pub col: usize,
    pub new_name: Seq<char>,
    pub seq: u64,
}

impl View for RenameRequest {
    type V = RenameRequestView;

    open spec fn view(&self) -> RenameRequestView {
        RenameRequestView {
            path: self.path@,
            line: self.line,
            col: self.col,
            new_name: self.new_name@,
            seq: self.seq,
        }
    }
}

/// A request for what can be done about a range.
pub struct CodeActionRequest {
    pub path: CanonPath,
    pub start_line: usize,
    pub start_col: usize,
    pub end_line: usize,
    pub end_col: usize,
    pub seq: u64,
}

#[verifier::ext_equal]
pub struct CodeActionRequestView {
    pub path: Seq<char>,
    pub start: (usize, usize),
    pub end: (usize, usize),
    pub seq: u64,
}

impl View for CodeActionRequest {
    type V = CodeActionRequestView;

    open spec fn view(&self) -> CodeActionRequestView {
        CodeActionRequestView {
            path: self.path@,
            start: (self.start_line, self.start_col),
            end: (self.end_line, self.end_col),
            seq: self.seq,
        }
    }
}

/// Something that a server offers to do.
pub struct CodeActionSummary {
    pub title: String,
    pub kind: Option<String>,
    pub resolve_needed: bool,
    pub action_id: String,
}

#[verifier::ext_equal]
pub struct ActionView {
    pub title: Seq<char>,
    pub kind: Option<Seq<char>>,
    pub resolve_needed: bool,
    pub action_id: Seq<char>,
}

impl View for CodeActionSummary {
    type V = ActionView;

    open spec fn view(&self) -> ActionView {
        ActionView {
            title: self.title@,
            kind: crate::kill::opt_text(self.kind),
            resolve_needed: self.resolve_needed,
            action_id: self.action_id@,
        }
    }
}

impl CodeActionSummary {
    pub fn copy(&self) -> (a: CodeActionSummary)
        ensures
            a@ == self@,
    {
        CodeActionSummary {
            title: self.title.clone(),
            kind: match &self.kind {
                Some(k) => Some(k.clone()),
                None => None,
            },
            resolve_needed: self.resolve_needed,
            action_id: self.action_id.clone(),
        }
    }
}

pub open spec fn action_views(s: Seq<CodeActionSummary>) -> Seq<ActionView> {
    Seq::new(s.len(), |i: int| s[i]@)
}

/// A request to do what was offered.
pub struct ActionSelect {
    pub path: CanonPath,
    pub action: CodeActionSummary,
    pub seq: u64,
}

#[verifier::ext_equal]
pub struct ActionSelectView {
    pub path: Seq<char>,
    pub action: ActionView,
    pub seq: u64,
}

impl View for ActionSelect {
    type V = ActionSelectView;

    open spec fn view(&self) -> ActionSelectView {
        ActionSelectView { path: self.path@, action: self.action@, seq: self.seq }
    }
}

/// A request to format a file.
pub struct FormatRequest {
    pub path: CanonPath,
    pub seq: u64,
}

#[verifier::ext_equal]
pub struct FormatRequestView {
    pub path: Seq<char>,
    pub seq: u64,
}

impl View for FormatRequest {
    type V = FormatRequestView;

    open spec fn view(&self) -> FormatRequestView {
        FormatRequestView { path: self.path@, seq: self.seq }
    }
}

pub open spec fn place_views(s: Seq<PlaceRequest>) -> Seq<PlaceRequestView> {
    Seq::new(s.len(), |i: int| s[i]@)
}

pub open spec fn rename_views(s: Seq<RenameRequest>) -> Seq<RenameRequestView> {
    Seq::new(s.len(), |i: int| s[i]@)
}

pub open spec fn code_action_views(s: Seq<CodeActionRequest>) -> Seq<CodeActionRequestView> {
    Seq::new(s.len(), |i: int| s[i]@)
}

pub open spec fn select_views(s: Seq<ActionSelect>) -> Seq<ActionSelectView> {
    Seq::new(s.len(), |i: int| s[i]@)
}

pub open spec fn format_views(s: Seq<FormatRequest>) -> Seq<FormatRequestView> {
    Seq::new(s.len(), |i: int| s[i]@)
}

// ---------------------------------------------------------------------
// What is pending
// ---------------------------------------------------------------------

/// Requests to be sent, and the newest of each kind whose answer counts.
pub struct LspPending {
    /// The number of the newest request.
    pub seq: u64,
    pub pending_goto: Vec<PlaceRequest>,
    pub latest_goto_seq: Option<u64>,
    pub pending_rename: Vec<RenameRequest>,
    pub latest_rename_seq: Option<u64>,
    pub pending_code_action: Vec<CodeActionRequest>,
    pub latest_code_action_seq: Option<u64>,
    pub pending_code_action_select: Vec<ActionSelect>,
    pub latest_code_action_select_seq: Option<u64>,
    pub pending_format: Vec<FormatRequest>,
    pub latest_format_seq: PathMap<u64>,
    /// Files to be saved when they have been formatted.
    pub pending_save_after_format: PathSet,
    /// Files whose inlay hints are known.
    pub inlay_hints_known: PathSet,
}

#[verifier::ext_equal]
pub struct PendingView {
    pub seq: u64,
    pub goto: Seq<PlaceRequestView>,
    pub latest_goto: Option<u64>,
    pub rename: Seq<RenameRequestView>,
    pub latest_rename: Option<u64>,
    pub code_action: Seq<CodeActionRequestView>,
    pub latest_code_action: Option<u64>,
    pub select: Seq<ActionSelectView>,
    pub latest_select: Option<u64>,
    pub format: Seq<FormatRequestView>,
    pub latest_format: Map<Seq<char>, u64>,
    pub save_after_format: Set<Seq<char>>,
    pub inlay_hints_known: Set<Seq<char>>,
}

impl View for LspPending {
    type V = PendingView;

    open spec fn view(&self) -> PendingView {
        PendingView {
            seq: self.seq,
            goto: place_views(self.pending_goto@),
            latest_goto: self.latest_goto_seq,
            rename: rename_views(self.pending_rename@),
            latest_rename: self.latest_rename_seq,
            code_action: code_action_views(self.pending_code_action@),
            latest_code_action: self.latest_code_action_seq,
            select: select_views(self.pending_code_action_select@),
            latest_select: self.latest_code_action_select_seq,
            format: format_views(self.pending_format@),
            latest_format: self.latest_format_seq.map(),
            save_after_format: self.pending_save_after_format@,
            inlay_hints_known: self.inlay_hints_known@,
        }
    }
}

pub open spec fn nothing_pending() -> PendingView {
    PendingView {
        seq: 0,
        goto: seq![],
        latest_goto: None,
        rename: seq![],
        latest_rename: None,
        code_action: seq![],
        latest_code_action: None,
        select: seq![],
        latest_select: None,
        format: seq![],
        latest_format: Map::empty(),
        save_after_format: Set::empty(),
        inlay_hints_known: Set::empty(),
    }
}

pub open spec fn goto_queued(p: PendingView, path: Seq<char>, line: usize, col: usize) -> PendingView {
    let seq = edits::bumped(p.seq);
    PendingView {
        seq,
        goto: p.goto.push(PlaceRequestView { path, line, col, seq }),
        latest_goto: Some(seq),
        ..p
    }
}

pub open spec fn rename_queued(
    p: PendingView,
    path: Seq<char>,
    line: usize,
    col: usize,
    new_name: Seq<char>,
) -> PendingView {
    let seq = edits::bumped(p.seq);
    PendingView {
        seq,
        rename: p.rename.push(RenameRequestView { path, line, col, new_name, seq }),
        latest_rename: Some(seq),
        ..p
    }
}

pub open spec fn code_action_queued(
    p: PendingView,
    path: Seq<char>,
    start: (usize, usize),
    end: (usize, usize),
) -> PendingView {
    let seq = edits::bumped(p.seq);
    PendingView {
        seq,
        code_action: p.code_action.push(CodeActionRequestView { path, start, end, seq }),
        latest_code_action: Some(seq),
        ..p
    }
}

pub open spec fn select_queued(p: PendingView, path: Seq<char>, action: ActionView) -> PendingView {
    let seq = edits::bumped(p.seq);
    PendingView {
        seq,
        select: p.select.push(ActionSelectView { path, action, seq }),
        latest_select: Some(seq),
        ..p
    }
}

pub open spec fn format_queued(p: PendingView, path: Seq<char>) -> PendingView {
    let seq = edits::bumped(p.seq);
    PendingView {
        seq,
        format: p.format.push(FormatRequestView { path, seq }),
        latest_format: p.latest_format.insert(path, seq),
        ..p
    }
}

impl LspPending {
    pub fn new() -> (p: LspPending)
        ensures
            p@ == nothing_pending(),
    {
        let p = LspPending {
            seq: 0,
            pending_goto: Vec::new(),
            latest_goto_seq: None,
            pending_rename: Vec::new(),
            latest_rename_seq: None,
            pending_code_action: Vec::new(),
            latest_code_action_seq: None,
            pending_code_action_select: Vec::new(),
            latest_code_action_select_seq: None,
            pending_format: Vec::new(),
            latest_format_seq: PathMap::new(),
            pending_save_after_format: PathSet::new(),
            inlay_hints_known: PathSet::new(),
        };
        assert(p@ =~= nothing_pending());
        p
    }

    pub fn queue_goto_definition(&mut self, path: CanonPath, line: usize, col: usize)
        ensures
            final(self)@ == goto_queued(old(self)@, path@, line, col),
    {
        let seq: u64 = bump_u64(self.seq);
        self.seq = seq;
        self.latest_goto_seq = Some(seq);
        self.pending_goto.push(PlaceRequest { path, line, col, seq });
        assert(self@ =~= goto_queued(old(self)@, path@, line, col));
    }

    pub fn queue_rename(&mut self, path: CanonPath, line: usize, col: usize, new_name: String)
        ensures
            final(self)@ == rename_queued(old(self)@, path@, line, col, new_name@),
    {
        let seq: u64 = bump_u64(self.seq);
        self.seq = seq;
        self.latest_rename_seq = Some(seq);
        self.pending_rename.push(RenameRequest { path, line, col, new_name, seq });
        assert(self@ =~= rename_queued(old(self)@, path@, line, col, new_name@));
    }

    pub fn queue_code_action(
        &mut self,
        path: CanonPath,
        start_line: usize,
        start_col: usize,
        end_line: usize,
        end_col: usize,
    )
        ensures
            final(self)@ == code_action_queued(
                old(self)@,
                path@,
                (start_line, start_col),
                (end_line, end_col),
            ),
    {
        let seq: u64 = bump_u64(self.seq);
        self.seq = seq;
        self.latest_code_action_seq = Some(seq);
        self.pending_code_action.push(
            CodeActionRequest { path, start_line, start_col, end_line, end_col, seq },
        );
        assert(self@ =~= code_action_queued(
            old(self)@,
            path@,
            (start_line, start_col),
            (end_line, end_col),
        ));
    }

    pub fn queue_code_action_select(&mut self, path: CanonPath, action: CodeActionSummary)
        ensures
            final(self)@ == select_queued(old(self)@, path@, action@),
    {
        let seq: u64 = bump_u64(self.seq);
        self.seq = seq;
        self.latest_code_action_select_seq = Some(seq);
        self.pending_code_action_select.push(ActionSelect { path, action, seq });
        assert(self@ =~= select_queued(old(self)@, path@, action@));
    }

    pub fn queue_format(&mut self, path: CanonPath)
        ensures
            final(self)@ == format_queued(old(self)@, path@),
    {
        let seq: u64 = bump_u64(self.seq);
        self.seq = seq;
        self.latest_format_seq.insert(path.text.clone(), seq);
        self.pending_format.push(FormatRequest { path, seq });
        assert(self@ =~= format_queued(old(self)@, path@));
    }

    pub fn clear_inlay_hint_cache(&mut self)
        ensures
            final(self)@ == (PendingView { inlay_hints_known: Set::empty(), ..old(self)@ }),
    {
        self.inlay_hints_known = PathSet::new();
    }
}

// ---------------------------------------------------------------------
// Overlays
// ---------------------------------------------------------------------

/// The overlay that asks for a new name.
pub struct RenameState {
    pub anchor_path: CanonPath,
    pub anchor_line: usize,
    pub anchor_col: usize,
    pub seed_word: String,
    pub input: TextInput,
}

#[verifier::ext_equal]
pub struct RenameView {
    pub anchor_path: Seq<char>,
    pub anchor_line: usize,
    pub anchor_col: usize,
    pub seed_word: Seq<char>,
    pub input: InputView,
}

impl View for RenameState {
    type V = RenameView;

    open spec fn view(&self) -> RenameView {
        RenameView {
            anchor_path: self.anchor_path@,
            anchor_line: self.anchor_line,
            anchor_col: self.anchor_col,
            seed_word: self.seed_word@,
            input: self.input@,
        }
    }
}

pub open spec fn rename_opened(path: Seq<char>, line: usize, col: usize, word: Seq<char>) -> RenameView {
    RenameView {
        anchor_path: path,
        anchor_line: line,
        anchor_col: col,
        seed_word: word,
        input: input::input_of(word),
    }
}

impl RenameState {
    pub fn open(path: CanonPath, line: usize, col: usize, word: String) -> (s: RenameState)
        ensures
            s@ == rename_opened(path@, line, col, word@),
    {
        let input = TextInput::new(word.as_str());
        RenameState {
            anchor_path: path,
            anchor_line: line,
            anchor_col: col,
            seed_word: word,
            input,
        }
    }
}

/// The overlay that offers code actions.
pub struct CodeActionPickerState {
    pub path: CanonPath,
    pub seq: u64,
    pub items: Vec<CodeActionSummary>,
    pub selected: usize,
    pub scroll: usize,
}

#[verifier::ext_equal]
pub struct PickerView {
    pub path: Seq<char>,
    pub seq: u64,
    pub items: Seq<ActionView>,
    pub selected: usize,
    pub scroll: usize,
}

impl View for CodeActionPickerState {
    type V = PickerView;

    open spec fn view(&self) -> PickerView {
        PickerView {
            path: self.path@,
            seq: self.seq,
            items: action_views(self.items@),
            selected: self.selected,
            scroll: self.scroll,
        }
    }
}

/// What the user has open that a language server is behind.
pub struct LspExtrasState {
    pub rename: Option<RenameState>,
    pub code_actions: Option<CodeActionPickerState>,
    pub inlay_hints: bool,
}

#[verifier::ext_equal]
pub struct ExtrasView {
    pub rename: Option<RenameView>,
    pub code_actions: Option<PickerView>,
    pub inlay_hints: bool,
}

pub open spec fn opt_rename(s: Option<RenameState>) -> Option<RenameView> {
    match s {
        Some(x) => Some(x@),
        None => None,
    }
}

pub open spec fn opt_picker(s: Option<CodeActionPickerState>) -> Option<PickerView> {
    match s {
        Some(x) => Some(x@),
        None => None,
    }
}

impl View for LspExtrasState {
    type V = ExtrasView;

    open spec fn view(&self) -> ExtrasView {
        ExtrasView {
            rename: opt_rename(self.rename),
            code_actions: opt_picker(self.code_actions),
            inlay_hints: self.inlay_hints,
        }
    }
}

impl LspExtrasState {
    pub fn new() -> (s: LspExtrasState)
        ensures
            s@ == (ExtrasView { rename: None, code_actions: None, inlay_hints: false }),
    {
        LspExtrasState { rename: None, code_actions: None, inlay_hints: false }
    }
}

/// The servers that have shown themselves.
pub struct LspStatuses {
    pub by_server: Vec<String>,
}

impl LspStatuses {
    pub fn new() -> (s: LspStatuses)
        ensures
            s.by_server.len() == 0,
    {
        LspStatuses { by_server: Vec::new() }
    }
}

// ---------------------------------------------------------------------
// Lists with a window
// ---------------------------------------------------------------------

/// The rows that a list shows at once.
pub const POPOVER_ROWS: usize = 10;

/// The scroll position that keeps `selected` in the window.
pub open spec fn kept_visible(selected: int, scroll: int) -> int {
    if selected < scroll {
        selected
    } else if selected >= scroll + POPOVER_ROWS {
        selected + 1 - POPOVER_ROWS
    } else {
        scroll
    }
}

pub fn keep_visible(selected: usize, scroll: usize) -> (r: usize)
    ensures
        r == kept_visible(selected as int, scroll as int),
{
    if selected < scroll {
        selected
    } else if selected - scroll >= POPOVER_ROWS {
        selected - (POPOVER_ROWS - 1)
    } else {
        scroll
    }
}

/// The index one up or one down, within a list of `n`.
pub open spec fn list_step(selected: int, down: bool, n: int) -> int {
    if down {
        if selected + 1 < n {
            selected + 1
        } else {
            n - 1
        }
    } else if selected - 1 >= n {
        n - 1
    } else if selected > 0 {
        selected - 1
    } else {
        0
    }
}

pub fn step_in_list(selected: usize, down: bool, n: usize) -> (r: usize)
    requires
        n > 0,
    ensures
        r == list_step(selected as int, down, n as int),
{
    if down {
        if selected < n - 1 {
            selected + 1
        } else {
            n - 1
        }
    } else if selected > n {
        n - 1
    } else if selected > 0 {
        selected - 1
    } else {
        0
    }
}

/// Moving in a list stays in the list, and the window follows.
pub proof fn list_moves_stay_in_view(selected: int, scroll: int, down: bool, n: int)
    requires
        0 <= selected,
        0 <= scroll,
        n > 0,
    ensures
        ({
            let s = list_step(selected, down, n);
            let top = kept_visible(s, scroll);
            0 <= s < n && 0 <= top <= s < top + POPOVER_ROWS
        }),
{
}

/// A list scrolls no further than its selection needs: not at all while that
/// is in view, and else until it is the first or the last row shown.
pub proof fn lists_scroll_no_further_than_needed(selected: int, scroll: int)
    requires
        0 <= selected,
        0 <= scroll,
    ensures
        ({
            let top = kept_visible(selected, scroll);
            &&& scroll <= selected < scroll + 10 ==> top == scroll
            &&& selected < scroll ==> top == selected
            &&& selected >= scroll + 10 ==> top + 9 == selected
        }),
{
}

/// A step goes to the neighbouring row and stays in the list.
pub proof fn list_steps_go_by_one(selected: int, n: int)
    requires
        0 <= selected < n,
    ensures
        selected + 1 < n ==> list_step(selected, true, n) == selected + 1,
        selected + 1 == n ==> list_step(selected, true, n) == selected,
        selected > 0 ==> list_step(selected, false, n) == selected - 1,
        selected == 0 ==> list_step(selected, false, n) == 0,
{
}

/// Every request gets a number of its own, the next one, and is the one of
/// its kind whose answer counts.
pub proof fn requests_are_numbered(p: PendingView, path: Seq<char>, line: usize, col: usize)
    requires
        p.seq < u64::MAX,
    ensures
        ({
            let g = goto_queued(p, path, line, col);
            let f = format_queued(p, path);
            &&& g.seq == p.seq + 1
            &&& g.latest_goto == Some(g.seq)
            &&& g.goto.last().seq == g.seq
            &&& g.goto.drop_last() =~= p.goto
            &&& g.latest_rename == p.latest_rename
            &&& f.seq == p.seq + 1
            &&& f.format.last().seq == f.seq
            &&& f.latest_format[path] == f.seq
            &&& f.latest_goto == p.latest_goto
        }),
{
}

} // verus!
