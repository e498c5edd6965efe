//! Offers of a language server and choosing among them.

use vstd::prelude::*;

use crate::buffers;
use crate::buffers::{BufferEdits, EditsView};
use crate::command::{Command, DispatchOutcome};
use crate::lsp_state;
use crate::lsp_state::{
    keep_visible, step_in_list, CodeActionPickerState, CodeActionSummary, ExtrasView,
    LspExtrasState, LspPending, PendingView, PickerView,
};
use crate::paths::CanonPath;
use crate::tabs::{TabView, Tabs, TabsView};

verus! {

/// `a` comes before `b` in the text, or is the same place.
pub open spec fn in_order(a: (usize, usize), b: (usize, usize)) -> bool {
    a.0 < b.0 || (a.0 == b.0 && a.1 <= b.1)
}

/// The range from the mark to the cursor, or the place of the cursor.
pub open spec fn asked_range(t: TabView) -> ((usize, usize), (usize, usize)) {
    let c = (t.cursor.line, t.cursor.col);
    match t.mark {
        None => (c, c),
        Some(m) => {
            let a = (m.line, m.col);
            if in_order(a, c) {
                (a, c)
            } else {
                (c, a)
            }
        },
    }
}

/// The request for the code actions at the cursor of the active tab.
pub open spec fn asked(x: ExtrasView, p: PendingView, t: TabsView, e: EditsView) -> PendingView {
    match buffers::active_loaded(t, e) {
        Some(i) => if x.code_actions is Some || t.open[i].preview {
            p
        } else {
            let (start, end) = asked_range(t.open[i]);
            lsp_state::code_action_queued(p, t.open[i].path, start, end)
        },
        None => p,
    }
}

/// Asks for the code actions of the range from mark to cursor.
pub fn activate(
    lsp_extras: &LspExtrasState,
    lsp_pending: &mut LspPending,
    tabs: &Tabs,
    edits: &BufferEdits,
)
    ensures
        final(lsp_pending)@ == asked(lsp_extras@, old(lsp_pending)@, tabs@, edits@),
{
    if lsp_extras.code_actions.is_some() {
        return;
    }
    let i: usize = match tabs.active_index() {
        Some(i) => i,
        None => {
            return;
        },
    };
    let tab = tabs.at(i);
    if tab.preview || !edits.has(tab.path.as_str()) {
        return;
    }
    let c = tab.cursor;
    let (a, b) = match tab.mark {
        None => (c, c),
        Some(m) => {
            if m.line < c.line || (m.line == c.line && m.col <= c.col) {
                (m, c)
            } else {
                (c, m)
            }
        },
    };
    lsp_pending.queue_code_action(tab.path.copy(), a.line, a.col, b.line, b.col);
}

/// The picker with the selection moved.
pub open spec fn moved(s: PickerView, down: bool) -> PickerView {
    if s.items.len() == 0 {
        s
    } else {
        let n = lsp_state::list_step(s.selected as int, down, s.items.len() as int);
        PickerView {
            selected: n as usize,
            scroll: lsp_state::kept_visible(n, s.scroll as int) as usize,
            ..s
        }
    }
}

fn move_selection(s: &mut CodeActionPickerState, down: bool)
    ensures
        final(s)@ == moved(old(s)@, down),
{
    let n: usize = s.items.len();
    if n == 0 {
        return;
    }
    s.selected = step_in_list(s.selected, down, n);
    s.scroll = keep_visible(s.selected, s.scroll);
}

/// What a command does while the picker is open, and whether the picker
/// keeps it to itself.
pub open spec fn overlay(cmd: Command, x: ExtrasView, p: PendingView) -> (
    ExtrasView,
    PendingView,
    bool,
) {
    match x.code_actions {
        None => (x, p, false),
        Some(s) => match cmd {
            Command::Quit | Command::Suspend => (x, p, false),
            Command::CursorUp => (
                ExtrasView { code_actions: Some(moved(s, false)), ..x },
                p,
                true,
            ),
            Command::CursorDown => (
                ExtrasView { code_actions: Some(moved(s, true)), ..x },
                p,
                true,
            ),
            Command::InsertNewline => (
                ExtrasView { code_actions: None, ..x },
                if s.selected < s.items.len() {
                    lsp_state::select_queued(p, s.path, s.items[s.selected as int])
                } else {
                    p
                },
                true,
            ),
            Command::Abort => (ExtrasView { code_actions: None, ..x }, p, true),
            _ => (x, p, true),
        },
    }
}

/// Routes a command through the picker, if it is open.
pub fn run_overlay_command(
    cmd: Command,
    lsp_extras: &mut LspExtrasState,
    lsp_pending: &mut LspPending,
) -> (r: Option<DispatchOutcome>)
    ensures
        (final(lsp_extras)@, final(lsp_pending)@, r is Some) == overlay(
            cmd,
            old(lsp_extras)@,
            old(lsp_pending)@,
        ),
        r is Some ==> r->0 is Continue,
{
    let taken = lsp_extras.code_actions.take();
    let mut s = match taken {
        Some(s) => s,
        None => {
            return None;
        },
    };
    match cmd {
        Command::Quit | Command::Suspend => {
            lsp_extras.code_actions = Some(s);
            return None;
        },
        Command::CursorUp => move_selection(&mut s, false),
        Command::CursorDown => move_selection(&mut s, true),
        Command::InsertNewline => {
            if s.selected < s.items.len() {
                assert(s@.items[s.selected as int] == s.items[s.selected as int]@);
                lsp_pending.queue_code_action_select(s.path.copy(), s.items[s.selected].copy());
            }
            return Some(DispatchOutcome::Continue);
        },
        Command::Abort => {
            return Some(DispatchOutcome::Continue);
        },
        _ => {},
    }
    lsp_extras.code_actions = Some(s);
    Some(DispatchOutcome::Continue)
}

/// The picker after offers came. None leave it as it is.
pub open spec fn installed(
    x: ExtrasView,
    path: Seq<char>,
    seq: u64,
    items: Seq<lsp_state::ActionView>,
) -> ExtrasView {
    if items.len() == 0 {
        x
    } else {
        ExtrasView {
            code_actions: Some(PickerView { path, seq, items, selected: 0, scroll: 0 }),
            ..x
        }
    }
}

/// Opens the picker on the offers that came.
pub fn install_picker(
    lsp_extras: &mut LspExtrasState,
    path: CanonPath,
    seq: u64,
    items: Vec<CodeActionSummary>,
)
    ensures
        final(lsp_extras)@ == installed(
            old(lsp_extras)@,
            path@,
            seq,
            lsp_state::action_views(items@),
        ),
{
    if items.len() == 0 {
        return;
    }
    lsp_extras.code_actions = Some(
        CodeActionPickerState { path, seq, items, selected: 0, scroll: 0 },
    );
}

// ---------------------------------------------------------------------
// Laws
// ---------------------------------------------------------------------

/// Actions are asked for what lies between mark and cursor, whichever comes
/// first, and without a mark for the place of the cursor.
pub proof fn actions_are_asked_for_the_region(x: ExtrasView, p: PendingView, t: TabsView, e: EditsView, i: int)
    requires
        buffers::active_loaded(t, e) == Some(i),
        x.code_actions is None,
        !t.open[i].preview,
    ensures
        ({
            let p2 = asked(x, p, t, e);
            let n = p.code_action.len() as int;
            let r = p2.code_action[n];
            let tab = t.open[i];
            let c = (tab.cursor.line, tab.cursor.col);
            &&& p2.code_action.len() == n + 1
            &&& p2.code_action.subrange(0, n) =~= p.code_action
            &&& r.path == tab.path
            &&& tab.mark is None ==> r.start == c && r.end == c
            &&& tab.mark is Some ==> {
                let m = (tab.mark->0.line, tab.mark->0.col);
                &&& (r.start == m && r.end == c) || (r.start == c && r.end == m)
                &&& r.start.0 < r.end.0 || (r.start.0 == r.end.0 && r.start.1 <= r.end.1)
            }
            &&& p2.latest_code_action == Some(r.seq)
        }),
{
}

/// Enter takes the selected offer and closes the picker; Abort closes it and
/// asks for nothing; up and down move the selection by one and stay in the
/// list.
pub proof fn the_selected_offer_is_taken(x: ExtrasView, p: PendingView)
    requires
        x.code_actions is Some,
        x.code_actions->0.selected < x.code_actions->0.items.len() <= usize::MAX,
    ensures
        ({
            let s = x.code_actions->0;
            let (x2, p2, mine) = overlay(Command::InsertNewline, x, p);
            let (x3, p3, mine3) = overlay(Command::Abort, x, p);
            let d = overlay(Command::CursorDown, x, p);
            let u = overlay(Command::CursorUp, x, p);
            let n = p.select.len() as int;
            &&& mine && mine3 && d.2 && u.2
            &&& x2.code_actions is None
            &&& p2.select.len() == n + 1
            &&& p2.select.subrange(0, n) =~= p.select
            &&& p2.select[n].path == s.path
            &&& p2.select[n].action == s.items[s.selected as int]
            &&& x3.code_actions is None
            &&& p3 == p && d.1 == p && u.1 == p
            &&& d.0.code_actions->0.items == s.items
            &&& s.selected + 1 < s.items.len() ==> d.0.code_actions->0.selected == s.selected + 1
            &&& s.selected + 1 == s.items.len() ==> d.0.code_actions->0.selected == s.selected
            &&& s.selected > 0 ==> u.0.code_actions->0.selected == s.selected - 1
            &&& s.selected == 0 ==> u.0.code_actions->0.selected == 0
        }),
{
}

/// Offers that come open the picker with the first one selected; without an
/// offer none opens.
pub proof fn offers_open_the_picker(x: ExtrasView, path: Seq<char>, seq: u64, items: Seq<lsp_state::ActionView>)
    ensures
        items.len() == 0 ==> installed(x, path, seq, items) == x,
        items.len() > 0 ==> ({
            let s = installed(x, path, seq, items).code_actions;
            &&& s is Some
            &&& s->0.items == items
            &&& s->0.path == path
            &&& s->0.selected == 0
            &&& s->0.scroll == 0
        }),
{
}

} // verus!
