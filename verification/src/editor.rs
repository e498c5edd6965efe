//! The whole state of the editor, and what single commands do to it.

use vstd::prelude::*;

use crate::alerts;
use crate::alerts::{AlertState, AlertsView};
use crate::browser;
use crate::browser::{BrowserUi, BrowserView, Focus, FsTree, FsView, PathChains};
use crate::buffers;
use crate::buffers::{BufferEdits, EditsView};
use crate::cells::CellWidths;
use crate::code_actions;
use crate::command::Command;
use crate::completions;
use crate::completions::{CompletionsPending, CompletionsPendingView, CompletionsState, SessionView};
use crate::cursor::Move;
use crate::diagnostics::{
    BufferDiagnostics, DiagnosticsStates, GitState, IssueCategory, LineStatus,
};
use crate::edit;
use crate::file_search;
use crate::find_file;
use crate::find_file::{FindFileMode, FindFileState, FindFileView};
use crate::hits;
use crate::hits::{FileSearchState, SearchView};
use crate::isearch;
use crate::isearch::{IsearchState, IsearchView};
use crate::issues;
use crate::jumps::{JumpListState, JumpsView};
use crate::keymap::{ChordState, Keymap, KeymapView};
use crate::kill;
use crate::kill::{ClipView, ClipboardState, KillRing, KillView};
use crate::lsp_state;
use crate::lsp_state::{ExtrasView, LspExtrasState, LspPending, LspStatuses, PendingView};
use crate::maps::PathMap;
use crate::moves;
use crate::moves::move_cursor;
use crate::nav;
use crate::rename;
use crate::save;
use crate::screen;
use crate::screen::Terminal;
use crate::store;
use crate::store::{BufferStore, LoadView, SyntaxStates};
use crate::tab_ops;
use crate::tabs;
use crate::tabs::{Tabs, TabsView};
use crate::truth;
use crate::undo;

verus! {

// ---------------------------------------------------------------------
// State
// ---------------------------------------------------------------------

/// How deep macros may run macros.
pub const RECURSION_LIMIT: usize = 100;

/// Keyboard macros.
pub struct KbdMacroState {
    pub recording: bool,
    /// What has been recorded so far.
    pub current: Vec<Command>,
    /// The macro that was recorded last.
    pub last: Option<Vec<Command>>,
    pub playback_depth: usize,
    pub execute_count: Option<usize>,
}

#[verifier::ext_equal]
pub struct MacroView {
    pub recording: bool,
    pub current: Seq<Command>,
    pub last: Option<Seq<Command>>,
    pub playback_depth: usize,
    pub execute_count: Option<usize>,
}

pub open spec fn opt_commands(v: Option<Vec<Command>>) -> Option<Seq<Command>> {
    match v {
        Some(x) => Some(x@),
        None => None,
    }
}

impl View for KbdMacroState {
    type V = MacroView;

    open spec fn view(&self) -> MacroView {
        MacroView {
            recording: self.recording,
            current: self.current@,
            last: opt_commands(self.last),
            playback_depth: self.playback_depth,
            execute_count: self.execute_count,
        }
    }
}

/// Nothing recorded and nothing being recorded.
pub open spec fn no_macro() -> MacroView {
    MacroView {
        recording: false,
        current: seq![],
        last: None,
        playback_depth: 0,
        execute_count: None,
    }
}

impl KbdMacroState {
    pub fn new() -> (k: KbdMacroState)
        ensures
            k@ == no_macro(),
    {
        let k = KbdMacroState {
            recording: false,
            current: Vec::new(),
            last: None,
            playback_depth: 0,
            execute_count: None,
        };
        assert(k@.current =~= seq![]);
        k
    }
}

/// A rewriting of the active buffer that is worked out elsewhere.
#[derive(Clone, Copy, Debug, PartialEq, Eq, Structural)]
pub enum Rewriting {
    Reflow,
    SortImports,
}

/// Everything that dispatching a key works on.
pub struct Dispatcher {
    pub tabs: Tabs,
    pub edits: BufferEdits,
    pub kill_ring: KillRing,
    pub clip: ClipboardState,
    pub alerts: AlertState,
    pub jumps: JumpListState,
    pub browser: BrowserUi,
    pub fs: FsTree,
    pub store: BufferStore,
    pub syntax: SyntaxStates,
    pub terminal: Terminal,
    pub cells: CellWidths,
    pub find_file: Option<FindFileState>,
    pub isearch: Option<IsearchState>,
    pub file_search: Option<FileSearchState>,
    pub completions: CompletionsState,
    pub completions_pending: CompletionsPending,
    pub lsp_extras: LspExtrasState,
    pub lsp_pending: LspPending,
    pub diagnostics: DiagnosticsStates,
    pub lsp_status: LspStatuses,
    pub git: GitState,
    pub path_chains: PathChains,
    pub keymap: Keymap,
    pub chord: ChordState,
    pub kbd_macro: KbdMacroState,
    /// A rewriting that was asked for and waits for its plan.
    pub wanted: Option<Rewriting>,
    /// The time, in milliseconds.
    pub now: u64,
}

#[verifier::ext_equal]
pub struct EditorView {
    pub tabs: TabsView,
    pub edits: EditsView,
    pub kill_ring: KillView,
    pub clip: ClipView,
    pub alerts: AlertsView,
    pub jumps: JumpsView,
    pub browser: BrowserView,
    pub fs: FsView,
    pub store: Map<Seq<char>, LoadView>,
    pub syntax: SyntaxStates,
    pub terminal: Terminal,
    pub cells: CellWidths,
    pub find_file: Option<FindFileView>,
    pub isearch: Option<IsearchView>,
    pub file_search: Option<SearchView>,
    pub completions: Option<SessionView>,
    pub completions_pending: CompletionsPendingView,
    pub extras: ExtrasView,
    pub lsp: PendingView,
    pub diagnostics: DiagnosticsStates,
    pub lsp_status: LspStatuses,
    pub git: GitState,
    pub chains: Map<Seq<char>, Seq<Seq<char>>>,
    pub keymap: KeymapView,
    pub chord: ChordState,
    pub kbd: MacroView,
    pub wanted: Option<Rewriting>,
    pub now: u64,
}

impl View for Dispatcher {
    type V = EditorView;

    open spec fn view(&self) -> EditorView {
        EditorView {
            tabs: self.tabs@,
            edits: self.edits@,
            kill_ring: self.kill_ring@,
            clip: self.clip@,
            alerts: self.alerts@,
            jumps: self.jumps@,
            browser: self.browser@,
            fs: self.fs@,
            store: self.store@,
            syntax: self.syntax,
            terminal: self.terminal,
            cells: self.cells,
            find_file: find_file::opt_view(self.find_file),
            isearch: isearch::opt_view(self.isearch),
            file_search: hits::opt_view(self.file_search),
            completions: self.completions@,
            completions_pending: self.completions_pending@,
            extras: self.lsp_extras@,
            lsp: self.lsp_pending@,
            diagnostics: self.diagnostics,
            lsp_status: self.lsp_status,
            git: self.git,
            chains: browser::chain_views(self.path_chains.map()),
            keymap: self.keymap@,
            chord: self.chord,
            kbd: self.kbd_macro@,
            wanted: self.wanted,
            now: self.now,
        }
    }
}

/// What commands read and never change: the files as they lie on disk and
/// as they were loaded, what parsing, language servers and version control
/// say of them, the terminal, the key bindings and the time.
pub open spec fn same_givens(a: Dispatcher, b: Dispatcher) -> bool {
    &&& a.fs == b.fs
    &&& a.store == b.store
    &&& a.syntax == b.syntax
    &&& a.terminal == b.terminal
    &&& a.cells == b.cells
    &&& a.diagnostics == b.diagnostics
    &&& a.lsp_status == b.lsp_status
    &&& a.git == b.git
    &&& a.keymap == b.keymap
    &&& a.now == b.now
}

/// The state with a message shown.
pub open spec fn told(v: EditorView, text: Seq<char>) -> EditorView {
    EditorView { alerts: alerts::informed(v.alerts, text, v.now), ..v }
}

// ---------------------------------------------------------------------
// Overlays
// ---------------------------------------------------------------------

pub open spec fn in_find_file(v: EditorView, cmd: Command) -> (EditorView, bool) {
    let (f, t, used) = find_file::overlay(cmd, v.find_file, v.tabs, v.fs);
    (EditorView { find_file: f, tabs: t, ..v }, used)
}

pub open spec fn in_completions(v: EditorView, cmd: Command) -> (EditorView, bool) {
    let (c, p, t, e, used) = completions::overlay(
        cmd,
        v.completions,
        v.completions_pending,
        v.tabs,
        v.edits,
    );
    (EditorView { completions: c, completions_pending: p, tabs: t, edits: e, ..v }, used)
}

pub open spec fn in_rename(v: EditorView, cmd: Command) -> (EditorView, bool) {
    let (x, p, used) = rename::overlay(cmd, v.extras, v.lsp);
    (EditorView { extras: x, lsp: p, ..v }, used)
}

pub open spec fn in_code_actions(v: EditorView, cmd: Command) -> (EditorView, bool) {
    let (x, p, used) = code_actions::overlay(cmd, v.extras, v.lsp);
    (EditorView { extras: x, lsp: p, ..v }, used)
}

pub open spec fn in_isearch(v: EditorView, cmd: Command) -> (EditorView, bool) {
    let (s, t, j, used) = isearch::overlay(cmd, v.isearch, v.tabs, v.edits, v.jumps);
    (EditorView { isearch: s, tabs: t, jumps: j, ..v }, used)
}

pub open spec fn in_file_search(v: EditorView, cmd: Command) -> (EditorView, bool) {
    match v.file_search {
        None => (v, false),
        Some(st) => {
            let w = file_search::overlay(
                cmd,
                st,
                file_search::World {
                    search: v.file_search,
                    browser: v.browser,
                    tabs: v.tabs,
                    edits: v.edits,
                },
                screen::body_rows_of(v.terminal),
                v.fs.root,
            );
            (
                EditorView {
                    file_search: w.search,
                    browser: w.browser,
                    tabs: w.tabs,
                    edits: w.edits,
                    ..v
                },
                !(cmd is Quit),
            )
        },
    }
}

/// A command offered to one overlay after the other until one keeps it.
#[verifier::opaque]
pub open spec fn intercepted(v: EditorView, cmd: Command) -> (EditorView, bool) {
    let (v1, used1) = in_find_file(v, cmd);
    if used1 {
        (v1, true)
    } else {
        let (v2, used2) = in_completions(v1, cmd);
        if used2 {
            (v2, true)
        } else {
            let (v3, used3) = in_rename(v2, cmd);
            if used3 {
                (v3, true)
            } else {
                let (v4, used4) = in_code_actions(v3, cmd);
                if used4 {
                    (v4, true)
                } else {
                    let (v5, used5) = in_isearch(v4, cmd);
                    if used5 {
                        (v5, true)
                    } else {
                        in_file_search(v5, cmd)
                    }
                }
            }
        }
    }
}

/// A command that makes no history untrue, by itself.
pub open spec fn honest(v: EditorView, cmd: Command) -> bool {
    match v.file_search {
        Some(st) => file_search::honest(cmd, st, v.edits),
        None => true,
    }
}

impl Dispatcher {
    /// An editor without files.
    pub fn new(keymap: Keymap, terminal: Terminal, now: u64) -> (d: Dispatcher)
        ensures
            d@.tabs == tabs::no_tabs(),
            d@.edits == buffers::no_edits(),
            d@.kill_ring == (KillView { latest: None, last_was_kill_line: false }),
            d@.clip == (ClipView {
                pending_yank: None,
                read_in_flight: false,
                pending_write: None,
            }),
            d@.alerts == alerts::no_alerts(),
            d@.jumps == (JumpsView { entries: seq![], index: 0 }),
            d@.browser == browser::fresh_panel(),
            d@.fs == browser::empty_fs(),
            d@.store == Map::<Seq<char>, LoadView>::empty(),
            d@.syntax.by_path.map() == Map::<Seq<char>, Vec<Option<String>>>::empty(),
            d@.terminal == terminal,
            d@.cells@ == Map::<Seq<char>, usize>::empty(),
            d@.find_file is None && d@.isearch is None && d@.file_search is None,
            d@.completions is None,
            d@.completions_pending == completions::nothing_pending(),
            d@.extras == (ExtrasView { rename: None, code_actions: None, inlay_hints: false }),
            d@.lsp == lsp_state::nothing_pending(),
            d@.diagnostics.by_path.map() == Map::<Seq<char>, BufferDiagnostics>::empty(),
            d@.lsp_status.by_server.len() == 0,
            d@.git.file_statuses.map() == Map::<Seq<char>, Vec<IssueCategory>>::empty(),
            d@.git.line_statuses.map() == Map::<Seq<char>, Vec<LineStatus>>::empty(),
            d@.chains == Map::<Seq<char>, Seq<Seq<char>>>::empty(),
            d@.keymap == keymap@,
            d@.chord == (ChordState { pending: None, count: None, macro_repeat: false }),
            d@.kbd == no_macro(),
            d@.wanted is None,
            d@.now == now,
    {
        Dispatcher {
            tabs: Tabs::new(),
            edits: BufferEdits::new(),
            kill_ring: KillRing::new(),
            clip: ClipboardState::new(),
            alerts: AlertState::new(),
            jumps: JumpListState::new(),
            browser: BrowserUi::new(),
            fs: FsTree::new(),
            store: BufferStore::new(),
            syntax: SyntaxStates::new(),
            terminal,
            cells: CellWidths::new(),
            find_file: None,
            isearch: None,
            file_search: None,
            completions: CompletionsState::new(),
            completions_pending: CompletionsPending::new(),
            lsp_extras: LspExtrasState::new(),
            lsp_pending: LspPending::new(),
            diagnostics: DiagnosticsStates::new(),
            lsp_status: LspStatuses::new(),
            git: GitState::new(),
            path_chains: PathMap::new(),
            keymap,
            chord: ChordState::new(),
            kbd_macro: KbdMacroState::new(),
            wanted: None,
            now,
        }
    }
}

impl Dispatcher {
    fn offer_find_file(&mut self, cmd: Command) -> (used: bool)
        ensures
            same_givens(*old(self), *final(self)),
            (final(self)@, used) == in_find_file(old(self)@, cmd),
    {
        let r = find_file::run_overlay_command(cmd, &mut self.find_file, &mut self.tabs, &self.fs);
        r.is_some()
    }

    fn offer_completions(&mut self, cmd: Command) -> (used: bool)
        ensures
            same_givens(*old(self), *final(self)),
            (final(self)@, used) == in_completions(old(self)@, cmd),
            !used ==> final(self)@.edits == old(self)@.edits,
            truth::all_truthful(old(self)@.edits) ==> truth::all_truthful(final(self)@.edits),
    {
        let r = completions::run_overlay_command(
            cmd,
            &mut self.completions,
            &mut self.completions_pending,
            &mut self.tabs,
            &mut self.edits,
        );
        r.is_some()
    }

    fn offer_rename(&mut self, cmd: Command) -> (used: bool)
        ensures
            same_givens(*old(self), *final(self)),
            (final(self)@, used) == in_rename(old(self)@, cmd),
    {
        let r = rename::run_overlay_command(cmd, &mut self.lsp_extras, &mut self.lsp_pending);
        r.is_some()
    }

    fn offer_code_actions(&mut self, cmd: Command) -> (used: bool)
        ensures
            same_givens(*old(self), *final(self)),
            (final(self)@, used) == in_code_actions(old(self)@, cmd),
    {
        let r = code_actions::run_overlay_command(
            cmd,
            &mut self.lsp_extras,
            &mut self.lsp_pending,
        );
        r.is_some()
    }

    fn offer_isearch(&mut self, cmd: Command) -> (used: bool)
        ensures
            same_givens(*old(self), *final(self)),
            (final(self)@, used) == in_isearch(old(self)@, cmd),
    {
        let r = isearch::run_overlay_command(
            cmd,
            &mut self.isearch,
            &mut self.tabs,
            &self.edits,
            &mut self.jumps,
        );
        r.is_some()
    }

    fn offer_file_search(&mut self, cmd: Command) -> (used: bool)
        ensures
            same_givens(*old(self), *final(self)),
            (final(self)@, used) == in_file_search(old(self)@, cmd),
            honest(old(self)@, cmd) && truth::all_truthful(old(self)@.edits)
                ==> truth::all_truthful(final(self)@.edits),
    {
        let r = file_search::run_overlay_command(
            cmd,
            &mut self.file_search,
            &mut self.browser,
            &mut self.tabs,
            &mut self.edits,
            &self.terminal,
            &self.fs.root,
        );
        r.is_some()
    }

    /// Offers a command to the overlays.
    pub fn intercept(&mut self, cmd: Command) -> (used: bool)
        ensures
            same_givens(*old(self), *final(self)),
            (final(self)@, used) == intercepted(old(self)@, cmd),
            final(self)@.kbd == old(self)@.kbd,
            honest(old(self)@, cmd) && truth::all_truthful(old(self)@.edits)
                ==> truth::all_truthful(final(self)@.edits),
    {
        reveal(intercepted);
        self.offer_find_file(cmd) || self.offer_completions(cmd) || self.offer_rename(cmd)
            || self.offer_code_actions(cmd) || self.offer_isearch(cmd) || self.offer_file_search(
            cmd,
        )
    }
}

// ---------------------------------------------------------------------
// Files and tabs
// ---------------------------------------------------------------------

/// Saving the active buffer: formatted first, if there is a server that
/// could do it.
pub open spec fn saved(v: EditorView) -> EditorView {
    match buffers::active_loaded(v.tabs, v.edits) {
        None => v,
        Some(i) => if v.lsp_status.by_server.len() == 0 {
            let (t, e) = save::save_requested(v.tabs, v.edits);
            EditorView { tabs: t, edits: e, ..v }
        } else {
            let path = v.tabs.open[i].path;
            let p = lsp_state::format_queued(v.lsp, path);
            told(
                EditorView {
                    lsp: PendingView {
                        save_after_format: p.save_after_format.insert(path),
                        ..p
                    },
                    ..v
                },
                "Formatting..."@,
            )
        },
    }
}

/// What the commands about files and tabs do.
pub open spec fn file_command(v: EditorView, cmd: Command) -> EditorView {
    match cmd {
        Command::Save => saved(v),
        Command::SaveAll => {
            let (t, e) = save::all_saved(v.tabs, v.edits);
            EditorView { tabs: t, edits: e, ..v }
        },
        Command::SaveNoFormat => {
            let (t, e) = save::save_requested(v.tabs, v.edits);
            EditorView { tabs: t, edits: e, ..v }
        },
        Command::TabNext => EditorView {
            tabs: tab_ops::cycled(v.tabs, 1),
            jumps: tab_ops::cycle_recorded(v.tabs, v.jumps, 1),
            ..v
        },
        Command::TabPrev => EditorView {
            tabs: tab_ops::cycled(v.tabs, -1),
            jumps: tab_ops::cycle_recorded(v.tabs, v.jumps, -1),
            ..v
        },
        Command::KillBuffer => {
            let (t, e, a) = tab_ops::active_killed(v.tabs, v.edits, v.alerts, v.now);
            EditorView { tabs: t, edits: e, alerts: a, ..v }
        },
        Command::FindFile => EditorView {
            find_file: find_file::activated(v.find_file, FindFileMode::Open, v.tabs, v.fs),
            ..v
        },
        Command::SaveAs => EditorView {
            find_file: find_file::activated(v.find_file, FindFileMode::SaveAs, v.tabs, v.fs),
            ..v
        },
        Command::OpenFileSearch => {
            let (s, b) = file_search::activated(v.file_search, v.browser, v.tabs, v.edits);
            EditorView { file_search: s, browser: b, ..v }
        },
        Command::CloseFileSearch => {
            let (b, t) = file_search::deactivated(v.file_search, v.browser, v.tabs);
            EditorView { file_search: None, browser: b, tabs: t, ..v }
        },
        _ => v,
    }
}

impl Dispatcher {
    fn tell(&mut self, text: &str)
        ensures
            same_givens(*old(self), *final(self)),
            final(self)@ == told(old(self)@, text@),
    {
        let now: u64 = self.now;
        self.alerts.set_info(text.to_owned(), now);
    }

    fn save_with_optional_format(&mut self)
        ensures
            same_givens(*old(self), *final(self)),
            final(self)@ == saved(old(self)@),
            truth::all_truthful(old(self)@.edits) ==> truth::all_truthful(final(self)@.edits),
    {
        let path = match self.tabs.active_index() {
            Some(i) => self.tabs.at(i).path.copy(),
            None => {
                return;
            },
        };
        if !self.edits.has(path.as_str()) {
            return;
        }
        if self.lsp_status.by_server.len() == 0 {
            save::request_save_active(&mut self.tabs, &mut self.edits);
            return;
        }
        let name = path.text.clone();
        self.lsp_pending.queue_format(path);
        self.lsp_pending.pending_save_after_format.insert(name);
        self.tell("Formatting...");
    }

    fn run_file_command(&mut self, cmd: Command)
        ensures
            same_givens(*old(self), *final(self)),
            final(self)@ == file_command(old(self)@, cmd),
            truth::all_truthful(old(self)@.edits) ==> truth::all_truthful(final(self)@.edits),
    {
        match cmd {
            Command::Save => self.save_with_optional_format(),
            Command::SaveAll => save::request_save_all(&mut self.tabs, &mut self.edits),
            Command::SaveNoFormat => save::request_save_active(&mut self.tabs, &mut self.edits),
            Command::TabNext => tab_ops::cycle_active(&mut self.tabs, &mut self.jumps, 1),
            Command::TabPrev => tab_ops::cycle_active(&mut self.tabs, &mut self.jumps, -1),
            Command::KillBuffer => {
                let now: u64 = self.now;
                tab_ops::kill_active(&mut self.tabs, &mut self.edits, &mut self.alerts, now)
            },
            Command::FindFile => find_file::activate_open(
                &mut self.find_file,
                &self.tabs,
                &self.fs,
            ),
            Command::SaveAs => find_file::activate_save_as(
                &mut self.find_file,
                &self.tabs,
                &self.fs,
            ),
            Command::OpenFileSearch => file_search::activate(
                &mut self.file_search,
                &mut self.browser,
                &self.tabs,
                &self.edits,
            ),
            Command::CloseFileSearch => file_search::deactivate(
                &mut self.file_search,
                &mut self.browser,
                &mut self.tabs,
            ),
            _ => {},
        }
    }
}

// ---------------------------------------------------------------------
// Moving
// ---------------------------------------------------------------------

/// The cursor move that a command stands for.
pub open spec fn move_of(cmd: Command) -> Option<Move> {
    match cmd {
        Command::CursorUp => Some(Move::Up),
        Command::CursorDown => Some(Move::Down),
        Command::CursorLeft => Some(Move::Left),
        Command::CursorRight => Some(Move::Right),
        Command::CursorLineStart => Some(Move::LineStart),
        Command::CursorLineEnd => Some(Move::LineEnd),
        Command::CursorPageUp => Some(Move::PageUp),
        Command::CursorPageDown => Some(Move::PageDown),
        Command::CursorFileStart => Some(Move::FileStart),
        Command::CursorFileEnd => Some(Move::FileEnd),
        Command::CursorWordLeft => Some(Move::WordLeft),
        Command::CursorWordRight => Some(Move::WordRight),
        _ => None,
    }
}

fn find_move(cmd: Command) -> (r: Option<Move>)
    ensures
        r == move_of(cmd),
{
    match cmd {
        Command::CursorUp => Some(Move::Up),
        Command::CursorDown => Some(Move::Down),
        Command::CursorLeft => Some(Move::Left),
        Command::CursorRight => Some(Move::Right),
        Command::CursorLineStart => Some(Move::LineStart),
        Command::CursorLineEnd => Some(Move::LineEnd),
        Command::CursorPageUp => Some(Move::PageUp),
        Command::CursorPageDown => Some(Move::PageDown),
        Command::CursorFileStart => Some(Move::FileStart),
        Command::CursorFileEnd => Some(Move::FileEnd),
        Command::CursorWordLeft => Some(Move::WordLeft),
        Command::CursorWordRight => Some(Move::WordRight),
        _ => None,
    }
}

/// The rows that a page has in the side panel.
pub open spec fn page_rows(v: EditorView) -> int {
    match v.terminal.dims {
        Some(_) => screen::body_rows_of(v.terminal),
        None => 1,
    }
}

/// What a command does to the selection in the side panel, if it does
/// anything there.
pub open spec fn browsed(v: EditorView, cmd: Command) -> Option<
    (BrowserView, TabsView, Map<Seq<char>, Seq<Seq<char>>>),
> {
    match cmd {
        Command::CursorUp => Some(
            browser::selection_moved(v.fs, v.browser, v.tabs, v.chains, -1),
        ),
        Command::CursorDown => Some(
            browser::selection_moved(v.fs, v.browser, v.tabs, v.chains, 1),
        ),
        Command::CursorPageUp => Some(
            browser::selection_moved(
                v.fs,
                v.browser,
                v.tabs,
                v.chains,
                browser::page_delta(page_rows(v), false),
            ),
        ),
        Command::CursorPageDown => Some(
            browser::selection_moved(
                v.fs,
                v.browser,
                v.tabs,
                v.chains,
                browser::page_delta(page_rows(v), true),
            ),
        ),
        Command::CursorFileStart => Some(
            browser::end_selected(v.fs, v.browser, v.tabs, v.chains, false),
        ),
        Command::CursorFileEnd => Some(
            browser::end_selected(v.fs, v.browser, v.tabs, v.chains, true),
        ),
        _ => None,
    }
}

/// What the commands that move do: in the side panel if that has the focus
/// and knows the move, else in the active tab.
pub open spec fn move_command(v: EditorView, cmd: Command) -> EditorView {
    match move_of(cmd) {
        None => v,
        Some(m) => if v.browser.focus is Side && browsed(v, cmd) is Some {
            let (b, t, c) = browsed(v, cmd)->0;
            EditorView { browser: b, tabs: t, chains: c, ..v }
        } else {
            EditorView {
                tabs: moves::cursor_moved(
                    v.tabs,
                    v.edits,
                    store::loaded_texts(v.store),
                    v.terminal,
                    v.browser.visible,
                    m,
                ),
                ..v
            }
        },
    }
}

impl Dispatcher {
    fn page(&self) -> (n: usize)
        ensures
            n == page_rows(self@),
    {
        match self.terminal.dims {
            Some(_) => screen::body_rows(&self.terminal),
            None => 1,
        }
    }

    fn browse(&mut self, cmd: Command) -> (used: bool)
        ensures
            same_givens(*old(self), *final(self)),
            match browsed(old(self)@, cmd) {
                Some(r) => used && final(self)@ == (EditorView {
                    browser: r.0,
                    tabs: r.1,
                    chains: r.2,
                    ..old(self)@
                }),
                None => !used && final(self)@ == old(self)@,
            },
    {
        let page: usize = self.page();
        match cmd {
            Command::CursorUp => browser::move_selection(
                &mut self.browser,
                &self.fs,
                &mut self.tabs,
                &mut self.path_chains,
                -1,
            ),
            Command::CursorDown => browser::move_selection(
                &mut self.browser,
                &self.fs,
                &mut self.tabs,
                &mut self.path_chains,
                1,
            ),
            Command::CursorPageUp => browser::page_selection(
                &mut self.browser,
                &self.fs,
                &mut self.tabs,
                &mut self.path_chains,
                page,
                false,
            ),
            Command::CursorPageDown => browser::page_selection(
                &mut self.browser,
                &self.fs,
                &mut self.tabs,
                &mut self.path_chains,
                page,
                true,
            ),
            Command::CursorFileStart => browser::select_first(
                &mut self.browser,
                &self.fs,
                &mut self.tabs,
                &mut self.path_chains,
            ),
            Command::CursorFileEnd => browser::select_last(
                &mut self.browser,
                &self.fs,
                &mut self.tabs,
                &mut self.path_chains,
            ),
            _ => {
                return false;
            },
        }
        true
    }

    fn run_move_command(&mut self, cmd: Command)
        ensures
            same_givens(*old(self), *final(self)),
            final(self)@ == move_command(old(self)@, cmd),
            truth::all_truthful(old(self)@.edits) ==> truth::all_truthful(final(self)@.edits),
    {
        let m = match find_move(cmd) {
            Some(m) => m,
            None => {
                return;
            },
        };
        if let Focus::Side = self.browser.focus {
            if self.browse(cmd) {
                return;
            }
        }
        let side_visible: bool = self.browser.visible;
        move_cursor(
            &mut self.tabs,
            &self.edits,
            &self.store,
            &self.terminal,
            side_visible,
            m,
        );
    }
}

// ---------------------------------------------------------------------
// Editing
// ---------------------------------------------------------------------

/// The state with the active tab and its buffer changed.
pub open spec fn changed(v: EditorView, f: buffers::Change) -> EditorView {
    let (t, e) = buffers::with_active(v.tabs, v.edits, f);
    EditorView { tabs: t, edits: e, ..v }
}

/// Killing the region.
pub open spec fn region_killed(v: EditorView) -> EditorView {
    let v2 = changed(v, kill::killing_region());
    match kill::active_region(v.tabs, v.edits) {
        None => told(v2, "No region"@),
        Some(_) => {
            let gone = kill::region_text(v.tabs, v.edits);
            EditorView {
                kill_ring: KillView { latest: Some(gone), last_was_kill_line: false },
                clip: ClipView { pending_write: Some(gone), ..v.clip },
                ..v2
            }
        },
    }
}

/// Killing the rest of the line.
pub open spec fn line_killed(v: EditorView) -> EditorView {
    let v2 = changed(v, kill::killing_line());
    match kill::line_to_kill(v.tabs, v.edits) {
        None => v2,
        Some(gone) => {
            let k = kill::line_killed(v.kill_ring, gone);
            EditorView {
                kill_ring: k,
                clip: ClipView { pending_write: k.latest, ..v.clip },
                ..v2
            }
        },
    }
}

/// What the commands that edit do.
pub open spec fn edit_command(v: EditorView, cmd: Command) -> EditorView {
    match cmd {
        Command::Abort => EditorView { tabs: kill::marked(v.tabs, kill::no_mark()), ..v },
        Command::InsertNewline => changed(v, edit::breaking(v.syntax)),
        Command::InsertTab => changed(v, edit::tabbing(v.syntax)),
        Command::DeleteBack => changed(v, edit::deleting_back()),
        Command::DeleteForward => changed(v, edit::deleting_forward()),
        Command::InsertChar(c) => changed(v, edit::typing(c)),
        Command::SetMark => told(
            EditorView { tabs: kill::marked(v.tabs, kill::mark_here()), ..v },
            "Mark set"@,
        ),
        Command::KillRegion => region_killed(v),
        Command::KillLine => line_killed(v),
        Command::Yank => EditorView { clip: kill::yank_requested(v.tabs, v.clip), ..v },
        Command::Undo => changed(v, undo::undoing()),
        Command::Redo => changed(v, undo::redoing()),
        _ => v,
    }
}

impl Dispatcher {
    fn run_edit_command(&mut self, cmd: Command)
        ensures
            same_givens(*old(self), *final(self)),
            final(self)@ == edit_command(old(self)@, cmd),
            truth::all_truthful(old(self)@.edits) ==> truth::all_truthful(final(self)@.edits),
    {
        match cmd {
            Command::Abort => kill::clear_mark(&mut self.tabs),
            Command::InsertNewline => edit::insert_newline(
                &mut self.tabs,
                &mut self.edits,
                &self.syntax,
            ),
            Command::InsertTab => edit::insert_tab(&mut self.tabs, &mut self.edits, &self.syntax),
            Command::DeleteBack => edit::delete_back(&mut self.tabs, &mut self.edits),
            Command::DeleteForward => edit::delete_forward(&mut self.tabs, &mut self.edits),
            Command::InsertChar(c) => edit::insert_char(&mut self.tabs, &mut self.edits, c),
            Command::SetMark => {
                kill::set_mark_active(&mut self.tabs);
                self.tell("Mark set");
            },
            Command::KillRegion => {
                let killed: bool = kill::kill_region(
                    &mut self.tabs,
                    &mut self.edits,
                    &mut self.kill_ring,
                    &mut self.clip,
                );
                if !killed {
                    self.tell("No region");
                }
            },
            Command::KillLine => kill::kill_line(
                &mut self.tabs,
                &mut self.edits,
                &mut self.kill_ring,
                &mut self.clip,
            ),
            Command::Yank => kill::request_yank(&self.tabs, &mut self.clip),
            Command::Undo => undo::undo_active(&mut self.tabs, &mut self.edits),
            Command::Redo => undo::redo_active(&mut self.tabs, &mut self.edits),
            _ => {},
        }
    }
}

// ---------------------------------------------------------------------
// Going places
// ---------------------------------------------------------------------

/// Going to the next or the previous issue.
pub open spec fn issue_visited(v: EditorView, forward: bool) -> EditorView {
    let (t, j, a) = issues::issue_visited(
        v.tabs,
        v.edits,
        v.diagnostics,
        v.git,
        v.jumps,
        v.alerts,
        v.terminal,
        v.browser.visible,
        forward,
        v.now,
    );
    EditorView { tabs: t, jumps: j, alerts: a, ..v }
}

/// What the commands that go places do.
pub open spec fn go_command(v: EditorView, cmd: Command) -> EditorView {
    match cmd {
        Command::JumpBack => {
            let (t, j) = nav::jumped_back(v.tabs, v.edits, v.jumps);
            EditorView { tabs: t, jumps: j, ..v }
        },
        Command::JumpForward => {
            let (t, j) = nav::jumped_forward(v.tabs, v.edits, v.jumps);
            EditorView { tabs: t, jumps: j, ..v }
        },
        Command::MatchBracket => {
            let (t, j) = nav::bracket_jumped(v.tabs, v.edits, v.jumps);
            EditorView { tabs: t, jumps: j, ..v }
        },
        Command::NextIssue => issue_visited(v, true),
        Command::PrevIssue => issue_visited(v, false),
        Command::InBufferSearch => EditorView {
            isearch: isearch::searching(v.isearch, v.tabs, v.edits),
            ..v
        },
        _ => v,
    }
}

impl Dispatcher {
    fn run_go_command(&mut self, cmd: Command)
        ensures
            same_givens(*old(self), *final(self)),
            final(self)@ == go_command(old(self)@, cmd),
            truth::all_truthful(old(self)@.edits) ==> truth::all_truthful(final(self)@.edits),
    {
        let side_visible: bool = self.browser.visible;
        let now: u64 = self.now;
        match cmd {
            Command::JumpBack => nav::jump_back(&mut self.tabs, &self.edits, &mut self.jumps),
            Command::JumpForward => nav::jump_forward(&mut self.tabs, &self.edits, &mut self.jumps),
            Command::MatchBracket => nav::match_bracket(
                &mut self.tabs,
                &self.edits,
                &mut self.jumps,
            ),
            Command::NextIssue => issues::next_issue_active(
                &mut self.tabs,
                &self.edits,
                &self.diagnostics,
                &self.git,
                &mut self.jumps,
                &mut self.alerts,
                &self.terminal,
                side_visible,
                now,
            ),
            Command::PrevIssue => issues::prev_issue_active(
                &mut self.tabs,
                &self.edits,
                &self.diagnostics,
                &self.git,
                &mut self.jumps,
                &mut self.alerts,
                &self.terminal,
                side_visible,
                now,
            ),
            Command::InBufferSearch => isearch::in_buffer_search(
                &mut self.isearch,
                &self.tabs,
                &self.edits,
            ),
            _ => {},
        }
    }
}

// ---------------------------------------------------------------------
// The side panel
// ---------------------------------------------------------------------

/// What the commands of the side panel do.
pub open spec fn panel_command(v: EditorView, cmd: Command) -> EditorView {
    match cmd {
        Command::ExpandDir => EditorView {
            browser: browser::expanded(v.fs, v.browser, v.tabs),
            ..v
        },
        Command::CollapseDir => EditorView {
            browser: browser::collapsed(v.fs, v.browser, v.tabs),
            ..v
        },
        Command::CollapseAll => EditorView { browser: browser::all_collapsed(v.browser), ..v },
        Command::OpenSelected => {
            let (b, t, c) = browser::selection_opened(v.fs, v.browser, v.tabs, v.chains);
            EditorView { browser: b, tabs: t, chains: c, ..v }
        },
        Command::OpenSelectedBg => {
            let (t, c) = browser::selection_previewed(v.fs, v.browser, v.tabs, v.chains);
            EditorView { tabs: t, chains: c, ..v }
        },
        Command::ToggleSidePanel => EditorView {
            browser: browser::panel_toggled(v.browser),
            ..v
        },
        Command::ToggleFocus => EditorView { browser: browser::focus_toggled(v.browser), ..v },
        _ => v,
    }
}

impl Dispatcher {
    fn run_panel_command(&mut self, cmd: Command)
        ensures
            same_givens(*old(self), *final(self)),
            final(self)@ == panel_command(old(self)@, cmd),
            truth::all_truthful(old(self)@.edits) ==> truth::all_truthful(final(self)@.edits),
    {
        match cmd {
            Command::ExpandDir => browser::expand_dir(&mut self.browser, &self.fs, &self.tabs),
            Command::CollapseDir => browser::collapse_dir(&mut self.browser, &self.fs, &self.tabs),
            Command::CollapseAll => browser::collapse_all(&mut self.browser),
            Command::OpenSelected => browser::open_selected(
                &mut self.browser,
                &self.fs,
                &mut self.tabs,
                &mut self.path_chains,
            ),
            Command::OpenSelectedBg => browser::open_selected_bg(
                &self.browser,
                &self.fs,
                &mut self.tabs,
                &mut self.path_chains,
            ),
            Command::ToggleSidePanel => browser::toggle_side_panel(&mut self.browser),
            Command::ToggleFocus => browser::toggle_focus(&mut self.browser),
            _ => {},
        }
    }
}

// ---------------------------------------------------------------------
// Language servers and rewritings
// ---------------------------------------------------------------------

/// Asking where the identifier under the cursor is defined.
pub open spec fn definition_asked(v: EditorView) -> EditorView {
    match buffers::active_loaded(v.tabs, v.edits) {
        None => v,
        Some(i) => {
            let t = v.tabs.open[i];
            if t.preview || v.lsp_status.by_server.len() == 0 {
                v
            } else {
                EditorView {
                    lsp: lsp_state::goto_queued(v.lsp, t.path, t.cursor.line, t.cursor.col),
                    ..v
                }
            }
        },
    }
}

/// Asking for the active buffer to be formatted.
pub open spec fn format_asked(v: EditorView) -> EditorView {
    match buffers::active_loaded(v.tabs, v.edits) {
        None => v,
        Some(i) => EditorView {
            lsp: lsp_state::format_queued(v.lsp, v.tabs.open[i].path),
            ..v
        },
    }
}

/// What the commands do that others have to answer.
pub open spec fn ask_command(v: EditorView, cmd: Command) -> EditorView {
    match cmd {
        Command::LspGotoDefinition => definition_asked(v),
        Command::LspRename => EditorView {
            extras: rename::activated(v.extras, v.tabs, v.edits),
            ..v
        },
        Command::LspCodeAction => EditorView {
            lsp: code_actions::asked(v.extras, v.lsp, v.tabs, v.edits),
            ..v
        },
        Command::LspToggleInlayHints => EditorView {
            extras: ExtrasView { inlay_hints: !v.extras.inlay_hints, ..v.extras },
            lsp: if v.extras.inlay_hints {
                PendingView { inlay_hints_known: Set::empty(), ..v.lsp }
            } else {
                v.lsp
            },
            ..v
        },
        Command::LspFormat => format_asked(v),
        Command::Outline => told(v, "Outline: not yet implemented"@),
        Command::ReflowParagraph => EditorView { wanted: Some(Rewriting::Reflow), ..v },
        Command::SortImports => EditorView { wanted: Some(Rewriting::SortImports), ..v },
        _ => v,
    }
}

impl Dispatcher {
    fn lsp_goto_definition(&mut self)
        ensures
            same_givens(*old(self), *final(self)),
            final(self)@ == definition_asked(old(self)@),
    {
        let i: usize = match self.tabs.active_index() {
            Some(i) => i,
            None => {
                return;
            },
        };
        let tab = self.tabs.at(i);
        if tab.preview || !self.edits.has(tab.path.as_str()) || self.lsp_status.by_server.len()
            == 0 {
            return;
        }
        self.lsp_pending.queue_goto_definition(tab.path.copy(), tab.cursor.line, tab.cursor.col);
    }

    fn request_format_active(&mut self)
        ensures
            same_givens(*old(self), *final(self)),
            final(self)@ == format_asked(old(self)@),
    {
        let i: usize = match self.tabs.active_index() {
            Some(i) => i,
            None => {
                return;
            },
        };
        let path = self.tabs.at(i).path.copy();
        if self.edits.has(path.as_str()) {
            self.lsp_pending.queue_format(path);
        }
    }

    fn run_ask_command(&mut self, cmd: Command)
        ensures
            same_givens(*old(self), *final(self)),
            final(self)@ == ask_command(old(self)@, cmd),
            truth::all_truthful(old(self)@.edits) ==> truth::all_truthful(final(self)@.edits),
    {
        match cmd {
            Command::LspGotoDefinition => self.lsp_goto_definition(),
            Command::LspRename => rename::activate(&mut self.lsp_extras, &self.tabs, &self.edits),
            Command::LspCodeAction => code_actions::activate(
                &self.lsp_extras,
                &mut self.lsp_pending,
                &self.tabs,
                &self.edits,
            ),
            Command::LspToggleInlayHints => {
                if self.lsp_extras.inlay_hints {
                    self.lsp_pending.clear_inlay_hint_cache();
                }
                self.lsp_extras.inlay_hints = !self.lsp_extras.inlay_hints;
            },
            Command::LspFormat => self.request_format_active(),
            Command::Outline => self.tell("Outline: not yet implemented"),
            Command::ReflowParagraph => {
                self.wanted = Some(Rewriting::Reflow);
            },
            Command::SortImports => {
                self.wanted = Some(Rewriting::SortImports);
            },
            _ => {},
        }
    }
}

// ---------------------------------------------------------------------
// All but macros
// ---------------------------------------------------------------------

/// What a command does that no overlay keeps. Every command belongs to at
/// most one of the groups; the others leave the state alone.
#[verifier::opaque]
pub open spec fn plain_command(v: EditorView, cmd: Command) -> EditorView {
    match cmd {
        Command::Save
        | Command::SaveAll
        | Command::SaveNoFormat
        | Command::SaveAs
        | Command::FindFile
        | Command::TabNext
        | Command::TabPrev
        | Command::KillBuffer
        | Command::OpenFileSearch
        | Command::CloseFileSearch => file_command(v, cmd),
        Command::JumpBack
        | Command::JumpForward
        | Command::MatchBracket
        | Command::NextIssue
        | Command::PrevIssue
        | Command::InBufferSearch => go_command(v, cmd),
        Command::ExpandDir
        | Command::CollapseDir
        | Command::CollapseAll
        | Command::OpenSelected
        | Command::OpenSelectedBg
        | Command::ToggleSidePanel
        | Command::ToggleFocus => panel_command(v, cmd),
        Command::LspGotoDefinition
        | Command::LspRename
        | Command::LspCodeAction
        | Command::LspToggleInlayHints
        | Command::LspFormat
        | Command::Outline
        | Command::ReflowParagraph
        | Command::SortImports => ask_command(v, cmd),
        _ => if move_of(cmd) is Some {
            move_command(v, cmd)
        } else {
            edit_command(v, cmd)
        },
    }
}

impl Dispatcher {
    /// Runs a command that no overlay keeps and that is no macro.
    pub fn run_plain_command(&mut self, cmd: Command)
        ensures
            same_givens(*old(self), *final(self)),
            final(self)@ == plain_command(old(self)@, cmd),
            truth::all_truthful(old(self)@.edits) ==> truth::all_truthful(final(self)@.edits),
    {
        reveal(plain_command);
        match cmd {
            Command::Save
            | Command::SaveAll
            | Command::SaveNoFormat
            | Command::SaveAs
            | Command::FindFile
            | Command::TabNext
            | Command::TabPrev
            | Command::KillBuffer
            | Command::OpenFileSearch
            | Command::CloseFileSearch => self.run_file_command(cmd),
            Command::JumpBack
            | Command::JumpForward
            | Command::MatchBracket
            | Command::NextIssue
            | Command::PrevIssue
            | Command::InBufferSearch => self.run_go_command(cmd),
            Command::ExpandDir
            | Command::CollapseDir
            | Command::CollapseAll
            | Command::OpenSelected
            | Command::OpenSelectedBg
            | Command::ToggleSidePanel
            | Command::ToggleFocus => self.run_panel_command(cmd),
            Command::LspGotoDefinition
            | Command::LspRename
            | Command::LspCodeAction
            | Command::LspToggleInlayHints
            | Command::LspFormat
            | Command::Outline
            | Command::ReflowParagraph
            | Command::SortImports => self.run_ask_command(cmd),
            _ => {
                if find_move(cmd).is_some() {
                    self.run_move_command(cmd)
                } else {
                    self.run_edit_command(cmd)
                }
            },
        }
    }
}

// ---------------------------------------------------------------------
// Laws
// ---------------------------------------------------------------------

/// The keys that type put what they stand for into the active buffer.
pub proof fn typing_commands_change_the_active_buffer(v: EditorView, c: char)
    ensures
        edit_command(v, Command::InsertChar(c)).edits == buffers::with_active(v.tabs, v.edits, edit::typing(c)).1,
        edit_command(v, Command::InsertChar(c)).tabs == buffers::with_active(v.tabs, v.edits, edit::typing(c)).0,
        edit_command(v, Command::InsertNewline).edits == buffers::with_active(v.tabs, v.edits, edit::breaking(v.syntax)).1,
        edit_command(v, Command::InsertNewline).tabs == buffers::with_active(v.tabs, v.edits, edit::breaking(v.syntax)).0,
        edit_command(v, Command::InsertTab).edits == buffers::with_active(v.tabs, v.edits, edit::tabbing(v.syntax)).1,
        edit_command(v, Command::InsertTab).tabs == buffers::with_active(v.tabs, v.edits, edit::tabbing(v.syntax)).0,
{
}

/// The keys that delete, undo and redo work on the active buffer, each in
/// its own way.
pub proof fn deleting_commands_change_the_active_buffer(v: EditorView)
    ensures
        edit_command(v, Command::DeleteBack).edits == buffers::with_active(v.tabs, v.edits, edit::deleting_back()).1,
        edit_command(v, Command::DeleteBack).tabs == buffers::with_active(v.tabs, v.edits, edit::deleting_back()).0,
        edit_command(v, Command::DeleteForward).edits == buffers::with_active(v.tabs, v.edits, edit::deleting_forward()).1,
        edit_command(v, Command::DeleteForward).tabs == buffers::with_active(v.tabs, v.edits, edit::deleting_forward()).0,
        edit_command(v, Command::Undo).edits == buffers::with_active(v.tabs, v.edits, undo::undoing()).1,
        edit_command(v, Command::Undo).tabs == buffers::with_active(v.tabs, v.edits, undo::undoing()).0,
        edit_command(v, Command::Redo).edits == buffers::with_active(v.tabs, v.edits, undo::redoing()).1,
        edit_command(v, Command::Redo).tabs == buffers::with_active(v.tabs, v.edits, undo::redoing()).0,
{
}

/// The keys that kill take text from the active buffer.
pub proof fn killing_commands_change_the_active_buffer(v: EditorView)
    ensures
        edit_command(v, Command::KillLine).edits == buffers::with_active(v.tabs, v.edits, kill::killing_line()).1,
        edit_command(v, Command::KillRegion).edits == buffers::with_active(v.tabs, v.edits, kill::killing_region()).1,
{
}

/// What is killed goes to the clipboard as it goes to the kill ring, and
/// without a region nothing is killed.
pub proof fn what_is_killed_goes_to_the_clipboard(v: EditorView)
    ensures
        ({
            let r = edit_command(v, Command::KillRegion);
            let l = edit_command(v, Command::KillLine);
            &&& kill::active_region(v.tabs, v.edits) is Some ==> r.kill_ring.latest == Some(
                kill::region_text(v.tabs, v.edits),
            ) && r.clip.pending_write == r.kill_ring.latest && !r.kill_ring.last_was_kill_line
            &&& kill::active_region(v.tabs, v.edits) is None ==> r.kill_ring == v.kill_ring && r.clip
                == v.clip
            &&& kill::line_to_kill(v.tabs, v.edits) is Some ==> l.clip.pending_write
                == l.kill_ring.latest && l.kill_ring == kill::line_killed(
                v.kill_ring,
                kill::line_to_kill(v.tabs, v.edits)->0,
            )
            &&& kill::line_to_kill(v.tabs, v.edits) is None ==> l.kill_ring == v.kill_ring && l.clip
                == v.clip
        }),
{
}

/// The tabs with the active cursor moved.
pub open spec fn gone(v: EditorView, m: Move) -> TabsView {
    moves::cursor_moved(
        v.tabs,
        v.edits,
        store::loaded_texts(v.store),
        v.terminal,
        v.browser.visible,
        m,
    )
}

/// With the focus on the text, up and down and the page keys move the cursor
/// of the active tab, and no text changes.
pub proof fn up_and_down_move_the_cursor(v: EditorView)
    requires
        v.browser.focus is Main,
    ensures
        move_command(v, Command::CursorUp).tabs == gone(v, Move::Up),
        move_command(v, Command::CursorDown).tabs == gone(v, Move::Down),
        move_command(v, Command::CursorPageUp).tabs == gone(v, Move::PageUp),
        move_command(v, Command::CursorPageDown).tabs == gone(v, Move::PageDown),
        move_command(v, Command::CursorUp).edits == v.edits,
        move_command(v, Command::CursorDown).edits == v.edits,
        move_command(v, Command::CursorPageUp).edits == v.edits,
        move_command(v, Command::CursorPageDown).edits == v.edits,
{
}

/// So do the keys for the start and the end of the file.
pub proof fn the_keys_for_the_ends_move_the_cursor(v: EditorView)
    requires
        v.browser.focus is Main,
    ensures
        move_command(v, Command::CursorFileStart).tabs == gone(v, Move::FileStart),
        move_command(v, Command::CursorFileEnd).tabs == gone(v, Move::FileEnd),
        move_command(v, Command::CursorFileStart).edits == v.edits,
        move_command(v, Command::CursorFileEnd).edits == v.edits,
{
}

/// Sideways keys move the cursor of the active tab wherever the focus is,
/// and no text changes.
pub proof fn sideways_keys_move_the_cursor(v: EditorView)
    ensures
        move_command(v, Command::CursorLeft).tabs == gone(v, Move::Left),
        move_command(v, Command::CursorRight).tabs == gone(v, Move::Right),
        move_command(v, Command::CursorLineStart).tabs == gone(v, Move::LineStart),
        move_command(v, Command::CursorLineEnd).tabs == gone(v, Move::LineEnd),
        move_command(v, Command::CursorWordLeft).tabs == gone(v, Move::WordLeft),
        move_command(v, Command::CursorWordRight).tabs == gone(v, Move::WordRight),
        move_command(v, Command::CursorLeft).edits == v.edits,
        move_command(v, Command::CursorRight).edits == v.edits,
{
}

/// With the focus on the panel up and down move its selection by a row, and
/// the keys for the ends of a file go to its ends.
pub proof fn up_and_down_move_the_selection(v: EditorView)
    requires
        v.browser.focus is Side,
    ensures
        move_command(v, Command::CursorUp).browser == browser::selection_moved(
            v.fs,
            v.browser,
            v.tabs,
            v.chains,
            -1,
        ).0,
        move_command(v, Command::CursorDown).browser == browser::selection_moved(
            v.fs,
            v.browser,
            v.tabs,
            v.chains,
            1,
        ).0,
        move_command(v, Command::CursorFileStart).browser == browser::end_selected(
            v.fs,
            v.browser,
            v.tabs,
            v.chains,
            false,
        ).0,
        move_command(v, Command::CursorFileEnd).browser == browser::end_selected(
            v.fs,
            v.browser,
            v.tabs,
            v.chains,
            true,
        ).0,
{
}

/// The page keys move the selection of the panel by a page of rows.
pub proof fn page_keys_move_the_selection_by_a_page(v: EditorView)
    requires
        v.browser.focus is Side,
        v.terminal.dims is Some,
    ensures
        move_command(v, Command::CursorPageUp).browser == browser::selection_moved(
            v.fs,
            v.browser,
            v.tabs,
            v.chains,
            -screen::body_rows_of(v.terminal),
        ).0,
        move_command(v, Command::CursorPageDown).browser == browser::selection_moved(
            v.fs,
            v.browser,
            v.tabs,
            v.chains,
            screen::body_rows_of(v.terminal),
        ).0,
{
    assert(screen::body_rows_of(v.terminal) <= isize::MAX);
}

/// A save goes through a formatter if there is a server that could have
/// one, and is then made when its answer comes; without one, and when asked
/// for plainly, it is made at once.
pub proof fn saving_formats_first(v: EditorView, i: int)
    requires
        buffers::active_loaded(v.tabs, v.edits) == Some(i),
    ensures
        ({
            let s = file_command(v, Command::Save);
            let plain = file_command(v, Command::SaveNoFormat);
            let all = file_command(v, Command::SaveAll);
            let path = v.tabs.open[i].path;
            let n = v.lsp.format.len() as int;
            &&& v.lsp_status.by_server.len() == 0 ==> s.edits == plain.edits && s.tabs == plain.tabs
            &&& v.lsp_status.by_server.len() > 0 ==> {
                &&& s.edits == v.edits
                &&& s.tabs == v.tabs
                &&& s.lsp.format.len() == n + 1
                &&& s.lsp.format[n].path == path
                &&& s.lsp.save_after_format == v.lsp.save_after_format.insert(path)
                &&& s.lsp.latest_format == v.lsp.latest_format.insert(path, s.lsp.format[n].seq)
            }
            &&& (plain.tabs, plain.edits) == save::save_requested(v.tabs, v.edits)
            &&& plain.lsp == v.lsp
            &&& (all.tabs, all.edits) == save::all_saved(v.tabs, v.edits)
            &&& all.lsp == v.lsp
        }),
{
}

/// The keys for tabs go to the next one and back and close the active one.
pub proof fn tab_commands_go_from_tab_to_tab(v: EditorView)
    ensures
        ({
            let next = file_command(v, Command::TabNext);
            let prev = file_command(v, Command::TabPrev);
            let kill = file_command(v, Command::KillBuffer);
            &&& next.tabs == tab_ops::cycled(v.tabs, 1)
            &&& next.jumps == tab_ops::cycle_recorded(v.tabs, v.jumps, 1)
            &&& next.edits == v.edits
            &&& prev.tabs == tab_ops::cycled(v.tabs, -1)
            &&& prev.jumps == tab_ops::cycle_recorded(v.tabs, v.jumps, -1)
            &&& prev.edits == v.edits
            &&& kill.tabs == tab_ops::active_killed(v.tabs, v.edits, v.alerts, v.now).0
            &&& kill.edits == tab_ops::active_killed(v.tabs, v.edits, v.alerts, v.now).1
        }),
{
}

/// The keys for places go back and forward in the jump list and to the
/// matching bracket, and change no text.
pub proof fn jumping_commands_jump(v: EditorView)
    ensures
        ({
            let back = go_command(v, Command::JumpBack);
            let ahead = go_command(v, Command::JumpForward);
            let bracket = go_command(v, Command::MatchBracket);
            &&& back.tabs == nav::jumped_back(v.tabs, v.edits, v.jumps).0
            &&& back.jumps == nav::jumped_back(v.tabs, v.edits, v.jumps).1
            &&& ahead.tabs == nav::jumped_forward(v.tabs, v.edits, v.jumps).0
            &&& ahead.jumps == nav::jumped_forward(v.tabs, v.edits, v.jumps).1
            &&& bracket.tabs == nav::bracket_jumped(v.tabs, v.edits, v.jumps).0
            &&& bracket.jumps == nav::bracket_jumped(v.tabs, v.edits, v.jumps).1
            &&& back.edits == v.edits
            &&& ahead.edits == v.edits
            &&& bracket.edits == v.edits
        }),
{
}

/// The key for the next issue goes forward and that for the one before
/// back.
pub proof fn issue_commands_go_both_ways(v: EditorView)
    ensures
        go_command(v, Command::NextIssue).tabs == issues::issue_visited(
            v.tabs,
            v.edits,
            v.diagnostics,
            v.git,
            v.jumps,
            v.alerts,
            v.terminal,
            v.browser.visible,
            true,
            v.now,
        ).0,
        go_command(v, Command::PrevIssue).tabs == issues::issue_visited(
            v.tabs,
            v.edits,
            v.diagnostics,
            v.git,
            v.jumps,
            v.alerts,
            v.terminal,
            v.browser.visible,
            false,
            v.now,
        ).0,
{
}

/// The keys for the panel open and close its directories, show and hide it
/// and open what is selected.
pub proof fn panel_commands_work_on_the_panel(v: EditorView)
    ensures
        panel_command(v, Command::ExpandDir).browser == browser::expanded(
            v.fs,
            v.browser,
            v.tabs,
        ),
        panel_command(v, Command::CollapseDir).browser == browser::collapsed(
            v.fs,
            v.browser,
            v.tabs,
        ),
        panel_command(v, Command::ToggleSidePanel).browser == browser::panel_toggled(v.browser),
        panel_command(v, Command::ToggleFocus).browser == browser::focus_toggled(v.browser),
        panel_command(v, Command::OpenSelected).tabs == browser::selection_opened(
            v.fs,
            v.browser,
            v.tabs,
            v.chains,
        ).1,
        panel_command(v, Command::OpenSelectedBg).tabs == browser::selection_previewed(
            v.fs,
            v.browser,
            v.tabs,
            v.chains,
        ).0,
{
}

/// What a server is asked is asked for the active buffer at its cursor, and
/// not for a preview or without a server.
pub proof fn servers_are_asked_about_the_cursor(v: EditorView, i: int)
    requires
        buffers::active_loaded(v.tabs, v.edits) == Some(i),
    ensures
        ({
            let d = ask_command(v, Command::LspGotoDefinition);
            let f = ask_command(v, Command::LspFormat);
            let h = ask_command(v, Command::LspToggleInlayHints);
            let t = v.tabs.open[i];
            let n = v.lsp.goto.len() as int;
            let m = v.lsp.format.len() as int;
            let asks = !t.preview && v.lsp_status.by_server.len() > 0;
            &&& !asks ==> d.lsp == v.lsp
            &&& asks ==> {
                &&& d.lsp.goto.len() == n + 1
                &&& d.lsp.goto[n].path == t.path
                &&& d.lsp.goto[n].line == t.cursor.line
                &&& d.lsp.goto[n].col == t.cursor.col
                &&& d.lsp.latest_goto == Some(d.lsp.goto[n].seq)
                &&& d.tabs == v.tabs
            }
            &&& f.lsp.format.len() == m + 1
            &&& f.lsp.format[m].path == t.path
            &&& f.lsp.save_after_format == v.lsp.save_after_format
            &&& h.extras.inlay_hints == !v.extras.inlay_hints
            &&& h.extras.rename == v.extras.rename
        }),
{
}

/// The prompt for files keeps every command but Quit, the rename prompt
/// every other but Quit, and the file search what no other overlay keeps;
/// without an overlay a command is left to the editor.
pub proof fn overlays_keep_commands_in_turn(v: EditorView, cmd: Command)
    ensures
        ({
            let (v2, used) = intercepted(v, cmd);
            &&& v.find_file is Some && !(cmd is Quit) ==> used && v2.edits == v.edits && (
            v2.find_file,
            v2.tabs,
            true,
            ) == find_file::overlay(cmd, v.find_file, v.tabs, v.fs)
            &&& v.find_file is None && v.completions is None && v.extras.rename is Some && !(
            cmd is Quit) ==> used && v2.edits == v.edits && (v2.extras, v2.lsp, true)
                == rename::overlay(cmd, v.extras, v.lsp)
            &&& v.find_file is None && v.completions is None && v.extras.rename is None
                && v.extras.code_actions is None && v.isearch is None && v.file_search is None
                ==> !used && v2 == v
            &&& v.find_file is None && v.completions is None && v.extras.rename is None
                && v.extras.code_actions is None && v.isearch is None && v.file_search is Some ==> (
            used <==> !(cmd is Quit))
        }),
{
    reveal(intercepted);
}

/// Every group of commands is reached: a command that no overlay keeps does
/// what its group says.
pub proof fn commands_reach_their_group(v: EditorView, c: char)
    ensures
        plain_command(v, Command::InsertChar(c)).edits == edit_command(
            v,
            Command::InsertChar(c),
        ).edits,
        plain_command(v, Command::Undo).edits == edit_command(v, Command::Undo).edits,
        plain_command(v, Command::CursorDown).tabs == move_command(v, Command::CursorDown).tabs,
        plain_command(v, Command::TabNext).tabs == file_command(v, Command::TabNext).tabs,
        plain_command(v, Command::JumpBack).tabs == go_command(v, Command::JumpBack).tabs,
        plain_command(v, Command::ToggleFocus).browser == panel_command(
            v,
            Command::ToggleFocus,
        ).browser,
        plain_command(v, Command::LspFormat).lsp == ask_command(v, Command::LspFormat).lsp,
{
    reveal(plain_command);
}

} // verus!
