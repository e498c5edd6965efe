//! The overlay that gives an identifier a new name.

use vstd::prelude::*;

use crate::buffers;
use crate::buffers::{BufferEdits, EditsView};
use crate::chars;
use crate::chars::{same_text, trim};
use crate::command::{Command, DispatchOutcome};
use crate::input;
use crate::lsp_state;
use crate::lsp_state::{
    ExtrasView, LspExtrasState, LspPending, PendingView, RenameState, RenameView,
};
use crate::tabs::{Tabs, TabsView};
use crate::words;
use crate::words::find_word;

verus! {

/// The overlay after a request to open it on the identifier under the
/// cursor. Nothing happens while another overlay is up.
pub open spec fn activated(x: ExtrasView, t: TabsView, e: EditsView) -> ExtrasView {
    match buffers::active_loaded(t, e) {
        Some(i) => {
            let tab = t.open[i];
            if x.rename is Some || x.code_actions is Some || tab.preview {
                x
            } else {
                match words::word_under(
                    e.buffers[tab.path].text,
                    tab.cursor.line as int,
                    tab.cursor.col as int,
                ) {
                    Some((start, word)) => ExtrasView {
                        rename: Some(
                            lsp_state::rename_opened(
                                tab.path,
                                tab.cursor.line,
                                start as usize,
                                word,
                            ),
                        ),
                        ..x
                    },
                    None => x,
                }
            }
        },
        None => x,
    }
}

/// Opens the overlay on the identifier under the cursor.
pub fn activate(lsp_extras: &mut LspExtrasState, tabs: &Tabs, edits: &BufferEdits)
    ensures
        final(lsp_extras)@ == activated(old(lsp_extras)@, tabs@, edits@),
{
    if lsp_extras.rename.is_some() || lsp_extras.code_actions.is_some() {
        return;
    }
    let i: usize = match tabs.active_index() {
        Some(i) => i,
        None => {
            return;
        },
    };
    let tab = tabs.at(i);
    if tab.preview {
        return;
    }
    if let Some(eb) = edits.get(tab.path.as_str()) {
        if let Some((start, word)) = find_word(&eb.rope, tab.cursor.line, tab.cursor.col) {
            lsp_extras.rename = Some(
                RenameState::open(tab.path.copy(), tab.cursor.line, start, word),
            );
        }
    }
}

/// What Enter asks for: nothing if the name is empty or the old one.
pub open spec fn committed(s: RenameView, p: PendingView) -> PendingView {
    let name = chars::trimmed(s.input.text());
    if name.len() == 0 || name == s.seed_word {
        p
    } else {
        lsp_state::rename_queued(p, s.anchor_path, s.anchor_line, s.anchor_col, name)
    }
}

fn commit(s: &RenameState, lsp_pending: &mut LspPending)
    ensures
        final(lsp_pending)@ == committed(s@, old(lsp_pending)@),
{
    let typed = s.input.text();
    let name = trim(typed.as_str());
    if name.as_str().unicode_len() == 0 || same_text(name.as_str(), s.seed_word.as_str()) {
        return;
    }
    lsp_pending.queue_rename(s.anchor_path.copy(), s.anchor_line, s.anchor_col, name);
}

/// The input after a command.
pub open spec fn input_after(s: RenameView, cmd: Command) -> RenameView {
    let i = s.input;
    let i2 = match cmd {
        Command::InsertChar(c) => input::typed(i, c),
        Command::DeleteBack => input::backspaced(i),
        Command::DeleteForward => input::deleted(i),
        Command::CursorLeft => input::moved_left(i),
        Command::CursorRight => input::moved_right(i),
        Command::CursorLineStart => input::at_start(i),
        Command::CursorLineEnd => input::at_end(i),
        Command::KillLine => input::killed(i),
        _ => i,
    };
    RenameView { input: i2, ..s }
}

/// What a command does while the overlay is open, and whether the overlay
/// keeps it to itself.
pub open spec fn overlay(cmd: Command, x: ExtrasView, p: PendingView) -> (
    ExtrasView,
    PendingView,
    bool,
) {
    match x.rename {
        None => (x, p, false),
        Some(s) => match cmd {
            Command::Quit => (x, p, false),
            Command::InsertNewline => (
                ExtrasView { rename: None, ..x },
                committed(s, p),
                true,
            ),
            Command::Abort => (ExtrasView { rename: None, ..x }, p, true),
            _ => (ExtrasView { rename: Some(input_after(s, cmd)), ..x }, p, true),
        },
    }
}

/// Routes a command through the overlay, if it is open.
pub fn run_overlay_command(
    cmd: Command,
    lsp_extras: &mut LspExtrasState,
    lsp_pending: &mut LspPending,
) -> (r: Option<DispatchOutcome>)
    ensures
        (final(lsp_extras)@, final(lsp_pending)@, r is Some) == overlay(
            cmd,
            old(lsp_extras)@,
            old(lsp_pending)@,
        ),
        r is Some ==> r->0 is Continue,
{
    let taken = lsp_extras.rename.take();
    let mut s = match taken {
        Some(s) => s,
        None => {
            return None;
        },
    };
    match cmd {
        Command::Quit => {
            lsp_extras.rename = Some(s);
            return None;
        },
        Command::InsertChar(c) => s.input.insert_char(c),
        Command::DeleteBack => {
            s.input.delete_back();
        },
        Command::DeleteForward => {
            s.input.delete_forward();
        },
        Command::CursorLeft => s.input.move_left(),
        Command::CursorRight => s.input.move_right(),
        Command::CursorLineStart => s.input.to_line_start(),
        Command::CursorLineEnd => s.input.to_line_end(),
        Command::KillLine => {
            s.input.kill_to_end();
        },
        Command::InsertNewline => {
            commit(&s, lsp_pending);
            return Some(DispatchOutcome::Continue);
        },
        Command::Abort => {
            return Some(DispatchOutcome::Continue);
        },
        _ => {},
    }
    lsp_extras.rename = Some(s);
    Some(DispatchOutcome::Continue)
}

/// An overlay that is opened and confirmed with nothing typed asks for
/// nothing, if the identifier has no white space around it.
pub proof fn unchanged_name_asks_for_nothing(s: RenameView, p: PendingView)
    requires
        chars::trimmed(s.input.text()) == s.seed_word,
    ensures
        committed(s, p) == p,
{
}

/// The overlay opens on the identifier under the cursor, with the cursor of
/// its input behind it; a preview, an open overlay, or no identifier there
/// opens none.
pub proof fn renaming_starts_on_the_word_under_the_cursor(x: ExtrasView, t: TabsView, e: EditsView, i: int)
    requires
        buffers::active_loaded(t, e) == Some(i),
    ensures
        ({
            let r = activated(x, t, e);
            let tab = t.open[i];
            let w = words::word_under(
                e.buffers[tab.path].text,
                tab.cursor.line as int,
                tab.cursor.col as int,
            );
            let free = x.rename is None && x.code_actions is None && !tab.preview;
            &&& !free || w is None ==> r == x
            &&& free && w is Some ==> {
                let s = r.rename->0;
                &&& r.rename is Some
                &&& r.code_actions is None
                &&& s.anchor_path == tab.path
                &&& s.anchor_line == tab.cursor.line
                &&& (w->0).0 <= usize::MAX && (w->0).0 >= 0 ==> s.anchor_col == (w->0).0
                &&& s.seed_word == (w->0).1
                &&& s.input.before == (w->0).1
                &&& s.input.after.len() == 0
            }
        }),
{
}

/// Enter asks for the new name, without the white space around it, at the
/// place where the identifier starts, and closes the overlay; Abort closes it
/// and asks for nothing.
pub proof fn enter_asks_for_the_new_name(x: ExtrasView, p: PendingView, a: Seq<char>, name: Seq<char>, b: Seq<char>)
    requires
        x.rename is Some,
        x.rename->0.input.before + x.rename->0.input.after == a + name + b,
        forall|i: int| 0 <= i < a.len() ==> chars::whitespace(#[trigger] a[i]),
        forall|i: int| 0 <= i < b.len() ==> chars::whitespace(#[trigger] b[i]),
        name.len() > 0 ==> !chars::whitespace(name[0]) && !chars::whitespace(name.last()),
    ensures
        ({
            let s = x.rename->0;
            let (x2, p2, mine) = overlay(Command::InsertNewline, x, p);
            let (x3, p3, mine3) = overlay(Command::Abort, x, p);
            let n = p.rename.len() as int;
            &&& mine && mine3
            &&& x2 == (ExtrasView { rename: None, ..x })
            &&& x3 == (ExtrasView { rename: None, ..x })
            &&& p3 == p
            &&& name.len() == 0 || name == s.seed_word ==> p2 == p
            &&& name.len() > 0 && name != s.seed_word ==> {
                &&& p2.rename.len() == n + 1
                &&& p2.rename.subrange(0, n) =~= p.rename
                &&& p2.rename[n].path == s.anchor_path
                &&& p2.rename[n].line == s.anchor_line
                &&& p2.rename[n].col == s.anchor_col
                &&& p2.rename[n].new_name == name
                &&& p2.latest_rename == Some(p2.rename[n].seq)
                &&& p.seq < u64::MAX ==> p2.rename[n].seq == p.seq + 1
                &&& p2.goto == p.goto
                &&& p2.format == p.format
            }
        }),
{
    chars::trimming_takes_the_space_around(a, name, b);
}

} // verus!
