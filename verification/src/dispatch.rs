//! From keys to commands, and macros.

use vstd::prelude::*;

use crate::buffers::{BufferEdits, EditsView};
use crate::buffers;
use crate::command;
use crate::command::{is_coalescable_insert, is_edit_like, should_record, Command, DispatchOutcome};
use crate::completions;
use crate::completions::handle_completion_trigger;
use crate::editor;
use crate::editor::{Dispatcher, EditorView, MacroView, RECURSION_LIMIT};
use crate::edits;
use crate::edits::BufferView;
use crate::keymap;
use crate::keymap::{resolve_command, ChordState, KeyContext, Resolved};
use crate::keys::{KeyCode, KeyEvent};
use crate::kill::KillView;
use crate::moves;
use crate::moves::refresh_active_preferred_col;
use crate::screen::Dims;
use crate::tab_ops;
use crate::tab_ops::force_kill;
use crate::truth;

verus! {

// ---------------------------------------------------------------------
// Commands and macros
// ---------------------------------------------------------------------

/// The start of a recording.
pub open spec fn recording_started(v: EditorView) -> EditorView {
    editor::told(
        EditorView { kbd: MacroView { recording: true, current: seq![], ..v.kbd }, ..v },
        "Defining kbd macro..."@,
    )
}

/// The end of a recording.
pub open spec fn recording_ended(v: EditorView) -> EditorView {
    if v.kbd.recording {
        editor::told(
            EditorView {
                kbd: MacroView {
                    recording: false,
                    current: seq![],
                    last: Some(v.kbd.current),
                    ..v.kbd
                },
                ..v
            },
            "Keyboard macro defined"@,
        )
    } else {
        editor::told(v, "Not defining kbd macro"@)
    }
}

/// How often a macro is to be played: once if no count was given, for ever,
/// as far as can be counted, if the count is zero.
pub open spec fn times(count: Option<usize>) -> nat {
    match count {
        None => 1,
        Some(n) => if n == 0 {
            usize::MAX as nat
        } else {
            n as nat
        },
    }
}

/// How a command ended: as any other, by leaving or suspending the editor,
/// or because macros were played in macros too deep, which ends all of
/// them.
#[derive(Clone, Copy, Debug, PartialEq, Eq, Structural)]
pub enum Flow {
    Continue,
    Quit,
    Suspend,
    TooDeep,
}

/// What the caller of the outermost command learns.
pub open spec fn outcome_of(f: Flow) -> DispatchOutcome {
    match f {
        Flow::Continue => DispatchOutcome::Continue,
        Flow::Quit => DispatchOutcome::Quit,
        Flow::Suspend => DispatchOutcome::Suspend,
        Flow::TooDeep => DispatchOutcome::Continue,
    }
}

/// What a command does while `depth` macros are being played, and how it
/// ends.
pub open spec fn step(v: EditorView, cmd: Command, depth: nat) -> (EditorView, Flow)
    decreases RECURSION_LIMIT - depth, 0nat, 0int,
{
    let (v1, used) = editor::intercepted(v, cmd);
    if used {
        (v1, Flow::Continue)
    } else {
        match cmd {
            Command::Quit => (v1, Flow::Quit),
            Command::Suspend => (v1, Flow::Suspend),
            Command::KbdMacroStart => (recording_started(v1), Flow::Continue),
            Command::KbdMacroEnd => (recording_ended(v1), Flow::Continue),
            Command::KbdMacroExecute => if depth >= RECURSION_LIMIT {
                (editor::told(v1, "Keyboard macro recursion limit"@), Flow::TooDeep)
            } else {
                match v1.kbd.last {
                    None => (editor::told(v1, "No kbd macro defined"@), Flow::Continue),
                    Some(cmds) => played(
                        EditorView { kbd: MacroView { execute_count: None, ..v1.kbd }, ..v1 },
                        cmds,
                        times(v1.kbd.execute_count),
                        depth + 1,
                    ),
                }
            },
            _ => (editor::plain_command(v1, cmd), Flow::Continue),
        }
    }
}

/// A macro played a number of times. Leaving or suspending the editor ends
/// it, and so does going too deep.
pub open spec fn played(v: EditorView, cmds: Seq<Command>, n: nat, depth: nat) -> (EditorView, Flow)
    decreases RECURSION_LIMIT - depth, 2nat, n as int,
{
    if n == 0 {
        (v, Flow::Continue)
    } else {
        let (v1, f) = played_from(v, cmds, 0, depth);
        if f is Continue {
            played(v1, cmds, (n - 1) as nat, depth)
        } else {
            (v1, f)
        }
    }
}

/// A macro played once, from its command `i` on.
pub open spec fn played_from(v: EditorView, cmds: Seq<Command>, i: int, depth: nat) -> (
    EditorView,
    Flow,
)
    decreases RECURSION_LIMIT - depth, 1nat, cmds.len() - i,
{
    if i < 0 || i >= cmds.len() {
        (v, Flow::Continue)
    } else {
        let (v1, f) = step(v, cmds[i], depth);
        if f is Continue {
            played_from(v1, cmds, i + 1, depth)
        } else {
            (v1, f)
        }
    }
}

/// What a command does while `depth` macros are being played.
pub open spec fn command_run(v: EditorView, cmd: Command, depth: nat) -> (
    EditorView,
    DispatchOutcome,
) {
    let (v1, f) = step(v, cmd, depth);
    (v1, outcome_of(f))
}

/// A command that makes no history untrue, nor does any command of the
/// macro that it plays.
pub open spec fn run_honest(v: EditorView, cmd: Command, depth: nat) -> bool
    decreases RECURSION_LIMIT - depth, 0nat, 0int,
{
    let (v1, used) = editor::intercepted(v, cmd);
    editor::honest(v, cmd) && (!used && cmd is KbdMacroExecute && depth < RECURSION_LIMIT
        ==> match v1.kbd.last {
        None => true,
        Some(cmds) => all_honest(
            EditorView { kbd: MacroView { execute_count: None, ..v1.kbd }, ..v1 },
            cmds,
            times(v1.kbd.execute_count),
            depth + 1,
        ),
    })
}

/// A macro that makes no history untrue, however often it is played up to
/// `n` times.
pub open spec fn all_honest(v: EditorView, cmds: Seq<Command>, n: nat, depth: nat) -> bool
    decreases RECURSION_LIMIT - depth, 2nat, n as int,
{
    if n == 0 {
        true
    } else {
        let (v1, f) = played_from(v, cmds, 0, depth);
        honest_from(v, cmds, 0, depth) && (f is Continue ==> all_honest(
            v1,
            cmds,
            (n - 1) as nat,
            depth,
        ))
    }
}

/// The commands of a macro from `i` on make no history untrue.
pub open spec fn honest_from(v: EditorView, cmds: Seq<Command>, i: int, depth: nat) -> bool
    decreases RECURSION_LIMIT - depth, 1nat, cmds.len() - i,
{
    if i < 0 || i >= cmds.len() {
        true
    } else {
        let (v1, f) = step(v, cmds[i], depth);
        run_honest(v, cmds[i], depth) && (f is Continue ==> honest_from(v1, cmds, i + 1, depth))
    }
}

fn copy_commands(v: &Vec<Command>) -> (r: Vec<Command>)
    ensures
        r@ == v@,
{
    let mut r: Vec<Command> = Vec::new();
    let mut i: usize = 0;
    while i < v.len()
        invariant
            i <= v.len(),
            r@ == v@.subrange(0, i as int),
        decreases v.len() - i,
    {
        r.push(v[i]);
        assert(r@ =~= v@.subrange(0, i + 1));
        i = i + 1;
    }
    assert(r@ =~= v@);
    r
}

impl Dispatcher {
    fn tell_macro(&mut self, text: &str)
        ensures
            editor::same_givens(*old(self), *final(self)),
            final(self)@ == editor::told(old(self)@, text@),
    {
        let now: u64 = self.now;
        self.alerts.set_info(text.to_owned(), now);
    }

    fn play(&mut self, cmds: &Vec<Command>, n: usize, depth: usize) -> (f: Flow)
        requires
            depth <= RECURSION_LIMIT,
        ensures
            editor::same_givens(*old(self), *final(self)),
            (final(self)@, f) == played(old(self)@, cmds@, n as nat, depth as nat),
            all_honest(old(self)@, cmds@, n as nat, depth as nat) && truth::all_truthful(
                old(self)@.edits,
            ) ==> truth::all_truthful(final(self)@.edits),
        decreases RECURSION_LIMIT - depth, 2nat, 0int,
    {
        let mut left: usize = n;
        while left > 0
            invariant
                depth <= RECURSION_LIMIT,
                editor::same_givens(*old(self), *self),
                played(old(self)@, cmds@, n as nat, depth as nat) == played(
                    self@,
                    cmds@,
                    left as nat,
                    depth as nat,
                ),
                all_honest(old(self)@, cmds@, n as nat, depth as nat) && truth::all_truthful(
                    old(self)@.edits,
                ) ==> all_honest(self@, cmds@, left as nat, depth as nat) && truth::all_truthful(
                    self@.edits,
                ),
            decreases left,
        {
            let ghost v = self@;
            let f = self.play_once(cmds, depth);
            match f {
                Flow::Continue => {},
                _ => {
                    return f;
                },
            }
            left = left - 1;
        }
        Flow::Continue
    }

    fn play_once(&mut self, cmds: &Vec<Command>, depth: usize) -> (f: Flow)
        requires
            depth <= RECURSION_LIMIT,
        ensures
            editor::same_givens(*old(self), *final(self)),
            (final(self)@, f) == played_from(old(self)@, cmds@, 0, depth as nat),
            honest_from(old(self)@, cmds@, 0, depth as nat) && truth::all_truthful(
                old(self)@.edits,
            ) ==> truth::all_truthful(final(self)@.edits),
        decreases RECURSION_LIMIT - depth, 1nat, 0int,
    {
        let mut i: usize = 0;
        while i < cmds.len()
            invariant
                i <= cmds.len(),
                depth <= RECURSION_LIMIT,
                editor::same_givens(*old(self), *self),
                played_from(old(self)@, cmds@, 0, depth as nat) == played_from(
                    self@,
                    cmds@,
                    i as int,
                    depth as nat,
                ),
                honest_from(old(self)@, cmds@, 0, depth as nat) && truth::all_truthful(
                    old(self)@.edits,
                ) ==> honest_from(self@, cmds@, i as int, depth as nat) && truth::all_truthful(
                    self@.edits,
                ),
            decreases cmds.len() - i,
        {
            let f = self.run_command_at(cmds[i], depth);
            match f {
                Flow::Continue => {},
                _ => {
                    return f;
                },
            }
            i = i + 1;
        }
        Flow::Continue
    }

    fn run_command_at(&mut self, cmd: Command, depth: usize) -> (f: Flow)
        ensures
            editor::same_givens(*old(self), *final(self)),
            (final(self)@, f) == step(old(self)@, cmd, depth as nat),
            run_honest(old(self)@, cmd, depth as nat) && truth::all_truthful(old(self)@.edits)
                ==> truth::all_truthful(final(self)@.edits),
        decreases RECURSION_LIMIT - depth, 0nat, 0int,
    {
        if self.intercept(cmd) {
            return Flow::Continue;
        }
        match cmd {
            Command::Quit => Flow::Quit,
            Command::Suspend => Flow::Suspend,
            Command::KbdMacroStart => {
                self.kbd_macro.recording = true;
                self.kbd_macro.current = Vec::new();
                assert(self.kbd_macro.current@ =~= seq![]);
                self.tell_macro("Defining kbd macro...");
                Flow::Continue
            },
            Command::KbdMacroEnd => {
                if self.kbd_macro.recording {
                    self.kbd_macro.recording = false;
                    let done = copy_commands(&self.kbd_macro.current);
                    self.kbd_macro.current = Vec::new();
                    assert(self.kbd_macro.current@ =~= seq![]);
                    self.kbd_macro.last = Some(done);
                    self.tell_macro("Keyboard macro defined");
                } else {
                    self.tell_macro("Not defining kbd macro");
                }
                Flow::Continue
            },
            Command::KbdMacroExecute => {
                if depth >= RECURSION_LIMIT {
                    self.tell_macro("Keyboard macro recursion limit");
                    return Flow::TooDeep;
                }
                let cmds = match &self.kbd_macro.last {
                    Some(c) => copy_commands(c),
                    None => {
                        self.tell_macro("No kbd macro defined");
                        return Flow::Continue;
                    },
                };
                let n: usize = match self.kbd_macro.execute_count {
                    None => 1,
                    Some(c) => if c == 0 {
                        usize::MAX
                    } else {
                        c
                    },
                };
                self.kbd_macro.execute_count = None;
                self.play(&cmds, n, depth + 1)
            },
            _ => {
                self.run_plain_command(cmd);
                Flow::Continue
            },
        }
    }

    /// Runs a command.
    pub fn run_command(&mut self, cmd: Command) -> (o: DispatchOutcome)
        ensures
            editor::same_givens(*old(self), *final(self)),
            (final(self)@, o) == command_run(
                old(self)@,
                cmd,
                old(self)@.kbd.playback_depth as nat,
            ),
            run_honest(old(self)@, cmd, old(self)@.kbd.playback_depth as nat)
                && truth::all_truthful(old(self)@.edits) ==> truth::all_truthful(
                final(self)@.edits,
            ),
    {
        let depth: usize = self.kbd_macro.playback_depth;
        match self.run_command_at(cmd, depth) {
            Flow::Continue => DispatchOutcome::Continue,
            Flow::Quit => DispatchOutcome::Quit,
            Flow::Suspend => DispatchOutcome::Suspend,
            Flow::TooDeep => DispatchOutcome::Continue,
        }
    }
}

// ---------------------------------------------------------------------
// Keys
// ---------------------------------------------------------------------

/// The edits with all open groups finished.
pub open spec fn finished(e: EditsView) -> EditsView {
    EditsView {
        buffers: Map::new(
            |p: Seq<char>| e.buffers.dom().contains(p),
            |p: Seq<char>|
                BufferView {
                    history: edits::finalised(e.buffers[p].history),
                    ..e.buffers[p]
                },
        ),
        ..e
    }
}

/// Finishes the open groups of all buffers.
pub fn finalise_history(edits: &mut BufferEdits)
    ensures
        final(edits)@ == finished(old(edits)@),
        truth::all_truthful(old(edits)@) ==> truth::all_truthful(final(edits)@),
{
    let ghost e0 = edits@;
    let keys = edits.buffers.keys();
    assert(edits.buffers.map().dom() =~= e0.buffers.dom());
    let mut i: usize = 0;
    while i < keys.len()
        invariant
            i <= keys.len(),
            forall|k: Seq<char>| #[trigger]
                e0.buffers.dom().contains(k) <==> exists|j: int|
                    0 <= j < keys.len() && #[trigger] keys[j]@ == k,
            forall|a: int, b: int| 0 <= a < b < keys.len() ==> keys[a]@ != keys[b]@,
            edits@ == (EditsView { buffers: edits@.buffers, ..e0 }),
            edits@.buffers.dom() == e0.buffers.dom(),
            forall|j: int|
                0 <= j < i ==> edits@.buffers[#[trigger] keys[j]@] == (BufferView {
                    history: edits::finalised(e0.buffers[keys[j]@].history),
                    ..e0.buffers[keys[j]@]
                }),
            forall|j: int|
                i <= j < keys.len() ==> edits@.buffers[#[trigger] keys[j]@]
                    == e0.buffers[keys[j]@],
        decreases keys.len() - i,
    {
        let ghost e1 = edits@;
        assert(e0.buffers.dom().contains(keys[i as int]@));
        let taken = edits.take(keys[i].as_str());
        if let Some(eb) = taken {
            let mut eb = eb;
            eb.history.finalise();
            let ghost b = eb@;
            edits.put(keys[i].clone(), eb);
            proof {
                buffers::lemma_take_put(e1, keys[i as int]@, b, e1.clock);
                assert(edits@.buffers =~= e1.buffers.insert(keys[i as int]@, b));
                assert(edits@.buffers.dom() =~= e0.buffers.dom());
            }
        }
        i = i + 1;
    }
    assert(edits@.buffers =~= finished(e0).buffers) by {
        assert forall|p: Seq<char>| e0.buffers.dom().contains(p) implies edits@.buffers[p] == (
        BufferView {
            history: edits::finalised(e0.buffers[p].history),
            ..e0.buffers[p]
        }) by {
            let j = choose|j: int| 0 <= j < keys.len() && #[trigger] keys[j]@ == p;
        }
    }
    proof {
        truth::lemma_finished(e0, edits@);
    }
}

/// The state with a command that is about to run put into the macro that
/// is being recorded, and the count of a chord handed to a macro that is
/// about to be played.
pub open spec fn prepared(v: EditorView, cmd: Command) -> EditorView {
    let v1 = if v.kbd.recording && command::recordable(cmd) {
        EditorView { kbd: MacroView { current: v.kbd.current.push(cmd), ..v.kbd }, ..v }
    } else {
        v
    };
    if cmd is KbdMacroExecute {
        EditorView {
            kbd: match v1.chord.count {
                Some(n) => MacroView { execute_count: Some(n), ..v1.kbd },
                None => v1.kbd,
            },
            chord: ChordState { count: None, macro_repeat: true, ..v1.chord },
            ..v1
        }
    } else {
        v1
    }
}

/// What follows a command: kills of lines join only if they follow each
/// other, typing joins only typing, the cursor aims anew after an edit, and
/// the list of completions keeps in step.
pub open spec fn settled(v: EditorView, cmd: Command) -> EditorView {
    let v1 = if cmd is KillLine {
        v
    } else {
        EditorView { kill_ring: KillView { last_was_kill_line: false, ..v.kill_ring }, ..v }
    };
    let v2 = if cmd is InsertChar {
        v1
    } else {
        EditorView { edits: finished(v1.edits), ..v1 }
    };
    let v3 = if command::edit_like(cmd) {
        EditorView {
            tabs: moves::active_aimed(
                v2.tabs,
                v2.edits,
                v2.terminal,
                v2.browser.visible,
                v2.cells@,
            ),
            ..v2
        }
    } else {
        v2
    };
    let (c, p) = completions::triggered(
        cmd,
        v3.tabs,
        v3.edits,
        v3.completions,
        v3.completions_pending,
    );
    EditorView { completions: c, completions_pending: p, ..v3 }
}

/// A command that a key stands for.
pub open spec fn command_dispatched(v: EditorView, cmd: Command) -> (EditorView, DispatchOutcome) {
    let v1 = prepared(v, cmd);
    let (v2, o) = command_run(v1, cmd, v1.kbd.playback_depth as nat);
    (settled(v2, cmd), o)
}

/// Where the focus is and which overlays are open.
pub open spec fn context(v: EditorView) -> KeyContext {
    KeyContext {
        browser_focused: v.browser.focus is Side,
        find_file_active: v.find_file is Some,
        file_search_active: v.file_search is Some,
    }
}

/// A key that says yes.
pub open spec fn says_yes(k: KeyEvent) -> bool {
    &&& !k.modifiers.ctrl && !k.modifiers.alt && !k.modifiers.shift
    &&& k.code == KeyCode::Char('y') || k.code == KeyCode::Char('Y')
}

/// A key that is looked up.
pub open spec fn key_resolved(v: EditorView, k: KeyEvent) -> (EditorView, DispatchOutcome) {
    let (r, c) = keymap::resolve(k, v.keymap, v.chord, context(v));
    let v1 = EditorView { chord: c, ..v };
    match r {
        Resolved::Command(cmd) => command_dispatched(v1, cmd),
        _ => (v1, DispatchOutcome::Continue),
    }
}

/// What a key does. While the closing of a tab waits for a yes, that is
/// taken for the answer; any other key takes the question away.
pub open spec fn key_pressed(v: EditorView, k: KeyEvent) -> (EditorView, DispatchOutcome) {
    match v.alerts.confirm_kill {
        None => key_resolved(v, k),
        Some(id) => {
            let v1 = EditorView {
                alerts: crate::alerts::AlertsView { confirm_kill: None, ..v.alerts },
                ..v
            };
            if says_yes(k) {
                (
                    EditorView {
                        tabs: tab_ops::tab_killed(v1.tabs, id),
                        edits: tab_ops::buffer_killed(v1.tabs, v1.edits, id),
                        ..v1
                    },
                    DispatchOutcome::Continue,
                )
            } else {
                key_resolved(v1, k)
            }
        },
    }
}

/// A key that is looked up and makes no history untrue.
pub open spec fn resolved_honest(v: EditorView, k: KeyEvent) -> bool {
    let (r, c) = keymap::resolve(k, v.keymap, v.chord, context(v));
    match r {
        Resolved::Command(cmd) => {
            let v1 = prepared(EditorView { chord: c, ..v }, cmd);
            run_honest(v1, cmd, v1.kbd.playback_depth as nat)
        },
        _ => true,
    }
}

/// A key that makes no history untrue.
pub open spec fn key_honest(v: EditorView, k: KeyEvent) -> bool {
    match v.alerts.confirm_kill {
        None => resolved_honest(v, k),
        Some(_) => says_yes(k) || resolved_honest(
            EditorView {
                alerts: crate::alerts::AlertsView { confirm_kill: None, ..v.alerts },
                ..v
            },
            k,
        ),
    }
}

/// Something that happens to the editor.
#[derive(Clone, Copy, Debug, PartialEq, Eq, Structural)]
pub enum Event {
    Key(KeyEvent),
    Resize(Dims),
    Quit,
}

impl Dispatcher {
    fn prepare(&mut self, cmd: Command)
        ensures
            editor::same_givens(*old(self), *final(self)),
            final(self)@ == prepared(old(self)@, cmd),
    {
        if self.kbd_macro.recording && should_record(&cmd) {
            self.kbd_macro.current.push(cmd);
        }
        if let Command::KbdMacroExecute = cmd {
            if let Some(n) = self.chord.count {
                self.kbd_macro.execute_count = Some(n);
            }
            self.chord.count = None;
            self.chord.macro_repeat = true;
        }
    }

    fn settle(&mut self, cmd: Command)
        ensures
            editor::same_givens(*old(self), *final(self)),
            final(self)@ == settled(old(self)@, cmd),
            truth::all_truthful(old(self)@.edits) ==> truth::all_truthful(final(self)@.edits),
    {
        if let Command::KillLine = cmd {
        } else {
            self.kill_ring.last_was_kill_line = false;
        }
        if !is_coalescable_insert(&cmd) {
            finalise_history(&mut self.edits);
        }
        if is_edit_like(&cmd) {
            let side_visible: bool = self.browser.visible;
            refresh_active_preferred_col(
                &mut self.tabs,
                &self.edits,
                &self.terminal,
                side_visible,
                &self.cells,
            );
        }
        handle_completion_trigger(
            &cmd,
            &self.tabs,
            &self.edits,
            &mut self.completions,
            &mut self.completions_pending,
        );
    }

    fn resolve_key(&mut self, k: KeyEvent) -> (o: DispatchOutcome)
        ensures
            editor::same_givens(*old(self), *final(self)),
            (final(self)@, o) == key_resolved(old(self)@, k),
            resolved_honest(old(self)@, k) && truth::all_truthful(old(self)@.edits)
                ==> truth::all_truthful(final(self)@.edits),
    {
        let browser_focused: bool = match self.browser.focus {
            crate::browser::Focus::Side => true,
            crate::browser::Focus::Main => false,
        };
        let ctx = KeyContext {
            browser_focused,
            find_file_active: self.find_file.is_some(),
            file_search_active: self.file_search.is_some(),
        };
        match resolve_command(k, &self.keymap, &mut self.chord, ctx) {
            Resolved::Command(cmd) => {
                self.prepare(cmd);
                let o = self.run_command(cmd);
                self.settle(cmd);
                o
            },
            _ => DispatchOutcome::Continue,
        }
    }

    /// Takes one key to what it does.
    pub fn dispatch_key(&mut self, k: KeyEvent) -> (o: DispatchOutcome)
        ensures
            editor::same_givens(*old(self), *final(self)),
            (final(self)@, o) == key_pressed(old(self)@, k),
            key_honest(old(self)@, k) && truth::all_truthful(old(self)@.edits)
                ==> truth::all_truthful(final(self)@.edits),
    {
        if let Some(id) = self.alerts.confirm_kill {
            self.alerts.confirm_kill = None;
            if k.modifiers.is_empty() {
                if let KeyCode::Char(c) = k.code {
                    if c == 'y' || c == 'Y' {
                        force_kill(&mut self.tabs, &mut self.edits, id);
                        return DispatchOutcome::Continue;
                    }
                }
            }
        }
        self.resolve_key(k)
    }

    /// Takes one event to what it does.
    pub fn dispatch(&mut self, ev: Event) -> (o: DispatchOutcome)
        ensures
            editor::same_givens(*old(self), *final(self)),
            (final(self)@, o) == (match ev {
                Event::Key(k) => key_pressed(old(self)@, k),
                Event::Resize(_) => (old(self)@, DispatchOutcome::Continue),
                Event::Quit => (old(self)@, DispatchOutcome::Quit),
            }),
            (ev matches Event::Key(k) ==> key_honest(old(self)@, k)) && truth::all_truthful(
                old(self)@.edits,
            ) ==> truth::all_truthful(final(self)@.edits),
    {
        match ev {
            Event::Key(k) => self.dispatch_key(k),
            Event::Resize(_) => DispatchOutcome::Continue,
            Event::Quit => DispatchOutcome::Quit,
        }
    }
}

// ---------------------------------------------------------------------
// Laws
// ---------------------------------------------------------------------

/// While there is no file search and no macro to play, no key makes the
/// history of a buffer untrue.
pub proof fn keys_are_honest_without_a_search(v: EditorView, k: KeyEvent)
    requires
        v.file_search is None,
        v.kbd.last is None,
    ensures
        key_honest(v, k),
{
    let v0 = EditorView {
        alerts: crate::alerts::AlertsView { confirm_kill: None, ..v.alerts },
        ..v
    };
    lemma_resolved_honest(v, k);
    lemma_resolved_honest(v0, k);
}

proof fn lemma_resolved_honest(v: EditorView, k: KeyEvent)
    requires
        v.file_search is None,
        v.kbd.last is None,
    ensures
        resolved_honest(v, k),
{
    reveal(editor::intercepted);
}

/// A key that answers the question whether to close a tab takes the
/// question away, whatever it is.
pub proof fn any_key_answers(v: EditorView, k: KeyEvent)
    requires
        v.alerts.confirm_kill is Some,
        says_yes(k),
    ensures
        key_pressed(v, k).0.alerts.confirm_kill is None,
        key_pressed(v, k).0.tabs == tab_ops::tab_killed(v.tabs, v.alerts.confirm_kill->0),
{
}

/// After any command but a kill of a line, the next kill of a line starts
/// anew.
pub proof fn other_commands_end_a_run_of_kills(v: EditorView, cmd: Command)
    requires
        !(cmd is KillLine),
    ensures
        !command_dispatched(v, cmd).0.kill_ring.last_was_kill_line,
{
}

/// After any command but typing no group of edits is open.
pub proof fn other_commands_end_a_group(v: EditorView, cmd: Command, path: Seq<char>)
    requires
        !(cmd is InsertChar),
        command_dispatched(v, cmd).0.edits.has(path),
    ensures
        command_dispatched(v, cmd).0.edits.buffers[path].history.open is None,
{
}

/// A macro that is played as deep as macros may be does nothing but say so.
pub proof fn macros_do_not_run_away(v: EditorView)
    requires
        !editor::intercepted(v, Command::KbdMacroExecute).1,
    ensures
        ({
            let (v2, o) = command_run(v, Command::KbdMacroExecute, RECURSION_LIMIT as nat);
            let v1 = editor::intercepted(v, Command::KbdMacroExecute).0;
            o is Continue && v2 == editor::told(v1, "Keyboard macro recursion limit"@)
        }),
{
}

/// A command that goes too deep is the last that is run of all the macros
/// that are being played: neither the rest of its macro nor a repetition
/// follows.
pub proof fn too_deep_ends_all_playing(v: EditorView, cmds: Seq<Command>, i: int, n: nat, depth: nat)
    requires
        0 <= i < cmds.len(),
        n > 0,
    ensures
        step(v, cmds[i], depth).1 is TooDeep ==> played_from(v, cmds, i, depth) == step(
            v,
            cmds[i],
            depth,
        ),
        played_from(v, cmds, 0, depth).1 is TooDeep ==> played(v, cmds, n, depth) == played_from(
            v,
            cmds,
            0,
            depth,
        ),
        played(v, cmds, n, depth).1 is TooDeep ==> outcome_of(played(v, cmds, n, depth).1)
            == DispatchOutcome::Continue,
{
}

/// Playing a macro `a + b` times is playing it `a` times and then `b`
/// times, if nothing ends it.
pub proof fn playing_adds_up(v: EditorView, cmds: Seq<Command>, a: nat, b: nat, depth: nat)
    requires
        played(v, cmds, a, depth).1 is Continue,
    ensures
        played(v, cmds, a + b, depth) == played(played(v, cmds, a, depth).0, cmds, b, depth),
    decreases a,
{
    if a > 0 {
        let (v1, f) = played_from(v, cmds, 0, depth);
        if f is Continue {
            playing_adds_up(v1, cmds, (a - 1) as nat, b, depth);
            assert((a + b - 1) as nat == (a - 1) as nat + b);
        }
    }
}

/// While recording, what is done is noted in its order, and the recording
/// can be played once it has ended.
pub proof fn recording_notes_what_is_done(v: EditorView, cmd: Command)
    ensures
        ({
            let p = prepared(v, cmd);
            let s = recording_started(v);
            let e = recording_ended(v);
            &&& v.kbd.recording && command::recordable(cmd) ==> p.kbd.current
                == v.kbd.current.push(cmd)
            &&& !(v.kbd.recording && command::recordable(cmd)) ==> p.kbd.current == v.kbd.current
            &&& p.tabs == v.tabs && p.edits == v.edits
            &&& s.kbd.recording && s.kbd.current.len() == 0 && s.kbd.last == v.kbd.last
            &&& v.kbd.recording ==> !e.kbd.recording && e.kbd.last == Some(v.kbd.current)
            &&& !v.kbd.recording ==> e.kbd == v.kbd
            &&& s.edits == v.edits && e.edits == v.edits
        }),
{
}

/// Playing a macro does its commands one after the other: playing one that
/// goes on with another is playing both in turn.
pub proof fn a_macro_plays_its_commands_in_turn(v: EditorView, a: Seq<Command>, b: Seq<Command>, i: int, depth: nat)
    requires
        0 <= i <= a.len(),
    ensures
        ({
            let (v1, f) = played_from(v, a, i, depth);
            played_from(v, a + b, i, depth) == if f is Continue {
                played_from(v1, b, 0, depth)
            } else {
                (v1, f)
            }
        }),
    decreases a.len() - i,
{
    if i < a.len() {
        assert((a + b)[i] == a[i]);
        let (v1, f) = step(v, a[i], depth);
        if f is Continue {
            a_macro_plays_its_commands_in_turn(v1, a, b, i + 1, depth);
        }
    } else {
        lemma_played_tail(v, a, b, 0, depth);
    }
}

proof fn lemma_played_tail(v: EditorView, a: Seq<Command>, b: Seq<Command>, k: int, depth: nat)
    requires
        0 <= k <= b.len(),
    ensures
        played_from(v, a + b, a.len() + k, depth) == played_from(v, b, k, depth),
    decreases b.len() - k,
{
    if k < b.len() {
        assert((a + b)[a.len() + k] == b[k]);
        let (v1, f) = step(v, b[k], depth);
        if f is Continue {
            lemma_played_tail(v1, a, b, k + 1, depth);
        }
    }
}

/// A macro of one command that is played once does what the command does.
pub proof fn a_macro_of_one_command_does_that(v: EditorView, cmd: Command, depth: nat)
    ensures
        played_from(v, seq![cmd], 0, depth) == step(v, cmd, depth),
        played_from(v, Seq::<Command>::empty(), 0, depth) == (v, Flow::Continue),
        played(v, seq![cmd], 1, depth) == step(v, cmd, depth),
        played(v, seq![cmd], 0, depth) == (v, Flow::Continue),
{
    reveal_with_fuel(played, 3);
    reveal_with_fuel(played_from, 3);
}

/// A macro is played once, or as often as was counted; a count of zero
/// plays it as often as can be counted.
pub proof fn a_macro_is_played_as_often_as_asked(v: EditorView, cmds: Seq<Command>, depth: nat)
    requires
        !editor::intercepted(v, Command::KbdMacroExecute).1,
        editor::intercepted(v, Command::KbdMacroExecute).0.kbd.last == Some(cmds),
        depth < RECURSION_LIMIT,
    ensures
        ({
            let v1 = editor::intercepted(v, Command::KbdMacroExecute).0;
            let clean = EditorView { kbd: MacroView { execute_count: None, ..v1.kbd }, ..v1 };
            &&& v1.kbd.execute_count is None ==> step(v, Command::KbdMacroExecute, depth) == played(
                clean,
                cmds,
                1,
                depth + 1,
            )
            &&& v1.kbd.execute_count matches Some(n) ==> n > 0 ==> step(
                v,
                Command::KbdMacroExecute,
                depth,
            ) == played(clean, cmds, n as nat, depth + 1)
            &&& v1.kbd.execute_count == Some(0usize) ==> step(v, Command::KbdMacroExecute, depth)
                == played(clean, cmds, usize::MAX as nat, depth + 1)
        }),
{
}

/// The count that was typed before a macro is played goes to it.
pub proof fn the_count_goes_to_the_macro(v: EditorView)
    ensures
        ({
            let p = prepared(v, Command::KbdMacroExecute);
            &&& v.chord.count is Some ==> p.kbd.execute_count == v.chord.count
            &&& v.chord.count is None ==> p.kbd.execute_count == v.kbd.execute_count
            &&& p.chord.count is None
            &&& p.chord.macro_repeat
        }),
{
}

/// A yes closes the tab that was asked about; any other key takes the
/// question away, closes nothing by itself, and is read as ever.
pub proof fn only_a_yes_closes_the_tab(v: EditorView, k: KeyEvent, id: crate::tabs::TabId)
    requires
        v.alerts.confirm_kill == Some(id),
    ensures
        ({
            let yes = !k.modifiers.ctrl && !k.modifiers.alt && !k.modifiers.shift && (k.code
                == KeyCode::Char('y') || k.code == KeyCode::Char('Y'));
            let asked = EditorView {
                alerts: crate::alerts::AlertsView { confirm_kill: None, ..v.alerts },
                ..v
            };
            let (v2, o) = key_pressed(v, k);
            &&& yes ==> v2.tabs == tab_ops::tab_killed(v.tabs, id) && v2.edits
                == tab_ops::buffer_killed(v.tabs, v.edits, id) && o is Continue
            &&& !yes ==> (v2, o) == key_pressed(asked, k)
        }),
{
}

/// A key does what the command does that it is bound to, and one that is
/// bound to nothing changes no text and no tab.
pub proof fn a_key_does_its_command(v: EditorView, k: KeyEvent)
    requires
        v.alerts.confirm_kill is None,
    ensures
        ({
            let ctx = KeyContext {
                browser_focused: v.browser.focus is Side,
                find_file_active: v.find_file is Some,
                file_search_active: v.file_search is Some,
            };
            let (r, c) = keymap::resolve(k, v.keymap, v.chord, ctx);
            &&& r matches Resolved::Command(cmd) ==> key_pressed(v, k) == command_dispatched(
                EditorView { chord: c, ..v },
                cmd,
            )
            &&& !(r is Command) ==> key_pressed(v, k).0 == (EditorView { chord: c, ..v })
                && key_pressed(v, k).1 is Continue
        }),
{
}

/// Quitting and suspending are told to the caller, and nothing else is.
pub proof fn quitting_is_told(v: EditorView, depth: nat)
    ensures
        !editor::intercepted(v, Command::Quit).1 ==> command_run(v, Command::Quit, depth).1 is Quit,
        !editor::intercepted(v, Command::Suspend).1 ==> command_run(v, Command::Suspend, depth).1
            is Suspend,
        !editor::intercepted(v, Command::Save).1 ==> command_run(v, Command::Save, depth).1
            is Continue,
        editor::intercepted(v, Command::Suspend).1 ==> command_run(v, Command::Suspend, depth).1
            is Continue,
{
}

/// After a command that edits, undoes or jumps the active cursor aims for
/// the cell it stands on; a mere move keeps what it aims for.
pub proof fn edits_renew_the_aim(v: EditorView, cmd: Command, i: int)
    requires
        buffers::active_loaded(v.tabs, v.edits) == Some(i),
    ensures
        ({
            let edits_like = cmd is InsertChar || cmd is InsertNewline || cmd is DeleteBack
                || cmd is DeleteForward || cmd is KillRegion || cmd is KillLine || cmd is Undo
                || cmd is Redo || cmd is JumpBack || cmd is JumpForward;
            let s = settled(v, cmd);
            let c = v.tabs.open[i].cursor;
            &&& !edits_like ==> s.tabs == v.tabs
            &&& edits_like ==> s.tabs.open[i].cursor.line == c.line && s.tabs.open[i].cursor.col
                == c.col && s.tabs.open[i].cursor.preferred_col == crate::cells::aim(
                v.cells@,
                v.edits.buffers[v.tabs.open[i].path].text,
                c,
                crate::screen::content_cols_of(v.terminal, v.browser.visible),
            )
        }),
{
    crate::seqs::lemma_first_from(v.tabs.open, crate::tabs::by_id(v.tabs.active->0), 0);
}

} // verus!
