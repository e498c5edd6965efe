//! The overlay that asks for a file to open or a name to save under.

use vstd::prelude::*;

use crate::browser;
use crate::browser::{active_tab_path, FsTree, FsView};
use crate::buffers;
use crate::chars;
use crate::chars::substring;
use crate::command::{Command, DispatchOutcome};
use crate::input;
use crate::input::{InputView, TextInput};
use crate::paths;
use crate::paths::{after_last_slash, CanonPath};
use crate::tabs;
use crate::tabs::{open_or_focus_tab, TabId, Tabs, TabsView};

verus! {

#[derive(Clone, Copy, Debug, PartialEq, Eq, Structural)]
pub enum FindFileMode {
    Open,
    SaveAs,
}

/// A file or directory that completes the input.
pub struct FindFileEntry {
    pub name: String,
    pub full: CanonPath,
    pub is_dir: bool,
}

#[verifier::ext_equal]
pub struct FindFileEntryView {
    pub name: Seq<char>,
    pub full: Seq<char>,
    pub is_dir: bool,
}

impl View for FindFileEntry {
    type V = FindFileEntryView;

    open spec fn view(&self) -> FindFileEntryView {
        FindFileEntryView { name: self.name@, full: self.full@, is_dir: self.is_dir }
    }
}

pub open spec fn entry_views(s: Seq<FindFileEntry>) -> Seq<FindFileEntryView> {
    Seq::new(s.len(), |i: int| s[i]@)
}

pub struct FindFileState {
    pub mode: FindFileMode,
    pub input: TextInput,
    /// The input that the completions are for.
    pub base_input: String,
    pub completions: Vec<FindFileEntry>,
    pub selected: Option<usize>,
    pub show_side: bool,
    /// Every new list of completions gets its first entry selected.
    pub arrow_follow: bool,
    pub previous_tab: Option<TabId>,
    /// Inputs for which completions are asked.
    pub pending_find_file_list: Vec<String>,
}

#[verifier::ext_equal]
pub struct FindFileView {
    pub mode: FindFileMode,
    pub input: InputView,
    pub base_input: Seq<char>,
    pub completions: Seq<FindFileEntryView>,
    pub selected: Option<usize>,
    pub show_side: bool,
    pub arrow_follow: bool,
    pub previous_tab: Option<TabId>,
    pub pending: Seq<Seq<char>>,
}

impl View for FindFileState {
    type V = FindFileView;

    open spec fn view(&self) -> FindFileView {
        FindFileView {
            mode: self.mode,
            input: self.input@,
            base_input: self.base_input@,
            completions: entry_views(self.completions@),
            selected: self.selected,
            show_side: self.show_side,
            arrow_follow: self.arrow_follow,
            previous_tab: self.previous_tab,
            pending: buffers::string_views(self.pending_find_file_list@),
        }
    }
}

pub open spec fn opt_view(s: Option<FindFileState>) -> Option<FindFileView> {
    match s {
        Some(x) => Some(x@),
        None => None,
    }
}

/// An overlay that was just opened on `text`.
pub open spec fn fresh(mode: FindFileMode, text: Seq<char>) -> FindFileView {
    FindFileView {
        mode,
        input: input::input_of(text),
        base_input: text,
        completions: seq![],
        selected: None,
        show_side: false,
        arrow_follow: false,
        previous_tab: None,
        pending: seq![],
    }
}

/// `s` with completions asked for its input.
pub open spec fn requested(s: FindFileView) -> FindFileView {
    FindFileView { pending: s.pending.push(s.input.text()), ..s }
}

/// `s` with nothing selected.
pub open spec fn unselected(s: FindFileView) -> FindFileView {
    FindFileView { selected: None, base_input: s.input.text(), ..s }
}

impl FindFileState {
    fn with_mode(mode: FindFileMode, text: &str) -> (s: FindFileState)
        ensures
            s@ == fresh(mode, text@),
    {
        let s = FindFileState {
            mode,
            input: TextInput::new(text),
            base_input: text.to_owned(),
            completions: Vec::new(),
            selected: None,
            show_side: false,
            arrow_follow: false,
            previous_tab: None,
            pending_find_file_list: Vec::new(),
        };
        assert(s@ =~= fresh(mode, text@));
        s
    }

    pub fn open(text: &str) -> (s: FindFileState)
        ensures
            s@ == fresh(FindFileMode::Open, text@),
    {
        FindFileState::with_mode(FindFileMode::Open, text)
    }

    pub fn save_as(text: &str) -> (s: FindFileState)
        ensures
            s@ == fresh(FindFileMode::SaveAs, text@),
    {
        FindFileState::with_mode(FindFileMode::SaveAs, text)
    }

    pub fn queue_request(&mut self)
        ensures
            final(self)@ == requested(old(self)@),
    {
        let t = self.input.text();
        self.pending_find_file_list.push(t);
        assert(self@ =~= requested(old(self)@));
    }

    pub fn reset_selection(&mut self)
        ensures
            final(self)@ == unselected(old(self)@),
    {
        self.selected = None;
        self.base_input = self.input.text();
    }
}

// ---------------------------------------------------------------------
// Paths below the home directory
// ---------------------------------------------------------------------

/// `p` with the home directory written `~`.
pub open spec fn abbreviated(p: Seq<char>, home: Option<Seq<char>>) -> Seq<char> {
    match home {
        Some(h) => if h.len() > 0 && p == h {
            seq!['~']
        } else if h.len() > 0 && p.len() > h.len() && p.subrange(0, h.len() as int) == h
            && p[h.len() as int] == '/' {
            seq!['~'] + p.subrange(h.len() as int, p.len() as int)
        } else {
            p
        },
        None => p,
    }
}

/// `p` with a leading `~` replaced by the home directory.
pub open spec fn expanded(p: Seq<char>, home: Option<Seq<char>>) -> Seq<char> {
    match home {
        Some(h) => if p.len() > 0 && p[0] == '~' && (p.len() == 1 || p[1] == '/') {
            h + p.subrange(1, p.len() as int)
        } else {
            p
        },
        None => p,
    }
}

/// Writing the home directory as `~` loses nothing.
pub proof fn expanding_undoes_abbreviating(p: Seq<char>, home: Option<Seq<char>>)
    requires
        p.len() > 0 ==> p[0] == '/',
    ensures
        expanded(abbreviated(p, home), home) == p,
{
    if let Some(h) = home {
        let a = abbreviated(p, home);
        if h.len() > 0 && p == h {
            assert(h + a.subrange(1, 1) =~= p);
        } else if h.len() > 0 && p.len() > h.len() && p.subrange(0, h.len() as int) == h
            && p[h.len() as int] == '/' {
            assert(a[1] == p[h.len() as int]);
            assert(a.subrange(1, a.len() as int) =~= p.subrange(h.len() as int, p.len() as int));
            assert(p =~= p.subrange(0, h.len() as int) + p.subrange(
                h.len() as int,
                p.len() as int,
            ));
        }
    }
}

pub fn abbreviate_home(p: &str, home: &Option<String>) -> (s: String)
    ensures
        s@ == abbreviated(p@, crate::kill::opt_text(*home)),
{
    if let Some(h) = home {
        let n: usize = h.as_str().unicode_len();
        let m: usize = p.unicode_len();
        if n > 0 && m >= n {
            let head = substring(p, 0, n);
            if chars::same_text(head.as_str(), h.as_str()) {
                if m == n {
                    assert(p@.subrange(0, n as int) =~= p@);
                    let mut s = String::new();
                    s.push('~');
                    assert(s@ =~= seq!['~']);
                    return s;
                }
                if p.get_char(n) == '/' {
                    let mut s = String::new();
                    s.push('~');
                    let rest = substring(p, n, m);
                    s.push_str(rest.as_str());
                    assert(s@ =~= seq!['~'] + p@.subrange(n as int, m as int));
                    return s;
                }
            }
        }
        proof {
            if p@ == h@ {
                assert(p@.subrange(0, n as int) =~= p@);
            }
        }
    }
    p.to_owned()
}

pub fn expand_path(p: &str, home: &Option<String>) -> (s: String)
    ensures
        s@ == expanded(p@, crate::kill::opt_text(*home)),
{
    if let Some(h) = home {
        let m: usize = p.unicode_len();
        if m > 0 && p.get_char(0) == '~' && (m == 1 || p.get_char(1) == '/') {
            let mut s = h.clone();
            let rest = substring(p, 1, m);
            s.push_str(rest.as_str());
            return s;
        }
    }
    p.to_owned()
}

/// The canonical form of `p`, as far as it is known.
pub open spec fn canonical(fs: FsView, p: Seq<char>) -> Seq<char> {
    if fs.canonical.dom().contains(p) {
        fs.canonical[p]
    } else {
        p
    }
}

pub fn canonicalize(fs: &FsTree, p: &str) -> (r: CanonPath)
    ensures
        r@ == canonical(fs@, p@),
{
    match fs.canonical.get(p) {
        Some(c) => c.copy(),
        None => CanonPath::new(p),
    }
}

/// `p` with a slash at its end.
pub open spec fn slashed(p: Seq<char>) -> Seq<char> {
    if p.len() > 0 && p.last() == '/' {
        p
    } else {
        p.push('/')
    }
}

fn ends_with_slash(s: &str) -> (r: bool)
    ensures
        r == (s@.len() > 0 && s@.last() == '/'),
{
    let n: usize = s.unicode_len();
    n > 0 && s.get_char(n - 1) == '/'
}

fn add_slash(s: &mut String)
    ensures
        final(s)@ == slashed(old(s)@),
{
    if !ends_with_slash(s.as_str()) {
        s.push('/');
    }
}

// ---------------------------------------------------------------------
// Opening the overlay
// ---------------------------------------------------------------------

/// The input that the overlay opens with: the directory of the active
/// file, else that of the workspace.
pub open spec fn open_input(t: TabsView, fs: FsView) -> Seq<char> {
    let dir = match browser::active_path(t) {
        Some(p) => match paths::parent_of(p) {
            Some(d) => Some(d),
            None => fs.root,
        },
        None => fs.root,
    };
    match dir {
        Some(d) => slashed(abbreviated(d, fs.home)),
        None => seq!['/'],
    }
}

/// The input for saving under another name: the active file, else the
/// workspace.
pub open spec fn save_as_input(t: TabsView, fs: FsView) -> Seq<char> {
    match browser::active_path(t) {
        Some(p) => abbreviated(p, fs.home),
        None => match fs.root {
            Some(r) => slashed(abbreviated(r, fs.home)),
            None => seq!['/'],
        },
    }
}

fn root_input(fs: &FsTree) -> (s: String)
    ensures
        s@ == (match fs@.root {
            Some(r) => slashed(abbreviated(r, fs@.home)),
            None => seq!['/'],
        }),
{
    match &fs.root {
        Some(r) => {
            let mut s = abbreviate_home(r.as_str(), &fs.home);
            add_slash(&mut s);
            s
        },
        None => {
            let mut s = String::new();
            s.push('/');
            assert(s@ =~= seq!['/']);
            s
        },
    }
}

fn compute_open_input(tabs: &Tabs, fs: &FsTree) -> (s: String)
    ensures
        s@ == open_input(tabs@, fs@),
{
    if let Some(p) = active_tab_path(tabs) {
        if let Some(d) = p.parent() {
            let mut s = abbreviate_home(d.as_str(), &fs.home);
            add_slash(&mut s);
            return s;
        }
    }
    root_input(fs)
}

fn compute_save_as_input(tabs: &Tabs, fs: &FsTree) -> (s: String)
    ensures
        s@ == save_as_input(tabs@, fs@),
{
    match active_tab_path(tabs) {
        Some(p) => abbreviate_home(p.as_str(), &fs.home),
        None => root_input(fs),
    }
}

/// The overlay after a request to open it. One that is open stays as it
/// is.
pub open spec fn activated(
    s: Option<FindFileView>,
    mode: FindFileMode,
    t: TabsView,
    fs: FsView,
) -> Option<FindFileView> {
    match s {
        Some(_) => s,
        None => Some(
            requested(
                fresh(
                    mode,
                    match mode {
                        FindFileMode::Open => open_input(t, fs),
                        FindFileMode::SaveAs => save_as_input(t, fs),
                    },
                ),
            ),
        ),
    }
}

pub fn activate_open(find_file: &mut Option<FindFileState>, tabs: &Tabs, fs: &FsTree)
    ensures
        opt_view(*final(find_file)) == activated(
            opt_view(*old(find_file)),
            FindFileMode::Open,
            tabs@,
            fs@,
        ),
{
    if find_file.is_some() {
        return;
    }
    let text = compute_open_input(tabs, fs);
    let mut state = FindFileState::open(text.as_str());
    state.queue_request();
    *find_file = Some(state);
}

pub fn activate_save_as(find_file: &mut Option<FindFileState>, tabs: &Tabs, fs: &FsTree)
    ensures
        opt_view(*final(find_file)) == activated(
            opt_view(*old(find_file)),
            FindFileMode::SaveAs,
            tabs@,
            fs@,
        ),
{
    if find_file.is_some() {
        return;
    }
    let text = compute_save_as_input(tabs, fs);
    let mut state = FindFileState::save_as(text.as_str());
    state.queue_request();
    *find_file = Some(state);
}

/// Closes the overlay.
pub fn deactivate(find_file: &mut Option<FindFileState>)
    ensures
        *final(find_file) is None,
{
    *find_file = None;
}

// ---------------------------------------------------------------------
// Commands
// ---------------------------------------------------------------------

/// `s` with its input edited: the selection is gone and completions are
/// asked for.
pub open spec fn edited(s: FindFileView, i: InputView) -> FindFileView {
    requested(unselected(FindFileView { input: i, ..s }))
}

/// `s` with its input edited, if the edit has anything to work on.
pub open spec fn edited_if(s: FindFileView, any: bool, i: InputView) -> FindFileView {
    if any {
        edited(s, i)
    } else {
        s
    }
}

/// What Enter does.
pub open spec fn entered(s: FindFileView, t: TabsView, fs: FsView) -> (
    Option<FindFileView>,
    TabsView,
) {
    let text = s.input.text();
    if text.len() == 0 {
        (Some(s), t)
    } else {
        match s.mode {
            FindFileMode::SaveAs => (None, t),
            FindFileMode::Open => if text.last() == '/' {
                (Some(s), t)
            } else {
                (None, tabs::opened(t, canonical(fs, expanded(text, fs.home)), true))
            },
        }
    }
}

/// What a command does while the overlay is open, and whether the overlay
/// keeps it to itself.
pub open spec fn overlay(cmd: Command, s: Option<FindFileView>, t: TabsView, fs: FsView) -> (
    Option<FindFileView>,
    TabsView,
    bool,
) {
    match s {
        None => (s, t, false),
        Some(st) => {
            let i = st.input;
            match cmd {
                Command::InsertChar(c) => (Some(edited(st, input::typed(i, c))), t, true),
                Command::DeleteBack => (
                    Some(edited_if(st, i.before.len() > 0, input::backspaced(i))),
                    t,
                    true,
                ),
                Command::DeleteForward => (
                    Some(edited_if(st, i.after.len() > 0, input::deleted(i))),
                    t,
                    true,
                ),
                Command::KillLine => (
                    Some(edited_if(st, i.after.len() > 0, input::killed(i))),
                    t,
                    true,
                ),
                Command::CursorLeft => (
                    Some(FindFileView { input: input::moved_left(i), ..st }),
                    t,
                    true,
                ),
                Command::CursorRight => (
                    Some(FindFileView { input: input::moved_right(i), ..st }),
                    t,
                    true,
                ),
                Command::CursorLineStart => (
                    Some(FindFileView { input: input::at_start(i), ..st }),
                    t,
                    true,
                ),
                Command::CursorLineEnd => (
                    Some(FindFileView { input: input::at_end(i), ..st }),
                    t,
                    true,
                ),
                Command::InsertNewline => {
                    let (s2, t2) = entered(st, t, fs);
                    (s2, t2, true)
                },
                Command::Abort => (None, t, true),
                Command::Quit => (s, t, false),
                _ => (s, t, true),
            }
        },
    }
}

fn after_edit(s: &mut FindFileState, changed: bool)
    ensures
        final(s)@ == (if changed {
            requested(unselected(old(s)@))
        } else {
            old(s)@
        }),
{
    if changed {
        s.reset_selection();
        s.queue_request();
    }
}

fn handle_enter(find_file: &mut Option<FindFileState>, tabs: &mut Tabs, fs: &FsTree)
    requires
        *old(find_file) is Some,
    ensures
        (opt_view(*final(find_file)), final(tabs)@) == entered(
            (*old(find_file))->0@,
            old(tabs)@,
            fs@,
        ),
{
    let (text, mode) = match find_file {
        Some(s) => (s.input.text(), s.mode),
        None => {
            return;
        },
    };
    if text.as_str().unicode_len() == 0 {
        return;
    }
    match mode {
        FindFileMode::SaveAs => deactivate(find_file),
        FindFileMode::Open => {
            if ends_with_slash(text.as_str()) {
                return;
            }
            let full = expand_path(text.as_str(), &fs.home);
            let canon = canonicalize(fs, full.as_str());
            open_or_focus_tab(tabs, &canon, true);
            deactivate(find_file);
        },
    }
}

/// Routes a command through the overlay, if it is open.
pub fn run_overlay_command(
    cmd: Command,
    find_file: &mut Option<FindFileState>,
    tabs: &mut Tabs,
    fs: &FsTree,
) -> (r: Option<DispatchOutcome>)
    ensures
        (opt_view(*final(find_file)), final(tabs)@, r is Some) == overlay(
            cmd,
            opt_view(*old(find_file)),
            old(tabs)@,
            fs@,
        ),
        r is Some ==> r->0 is Continue,
{
    if let Command::InsertNewline = cmd {
        if find_file.is_some() {
            handle_enter(find_file, tabs, fs);
            return Some(DispatchOutcome::Continue);
        }
        return None;
    }
    let mut st = match find_file.take() {
        Some(st) => st,
        None => {
            return None;
        },
    };
    match cmd {
        Command::InsertChar(c) => {
            st.input.insert_char(c);
            after_edit(&mut st, true);
        },
        Command::DeleteBack => {
            let changed: bool = st.input.delete_back();
            after_edit(&mut st, changed);
        },
        Command::DeleteForward => {
            let changed: bool = st.input.delete_forward();
            after_edit(&mut st, changed);
        },
        Command::KillLine => {
            let changed: bool = st.input.kill_to_end();
            after_edit(&mut st, changed);
        },
        Command::CursorLeft => st.input.move_left(),
        Command::CursorRight => st.input.move_right(),
        Command::CursorLineStart => st.input.to_line_start(),
        Command::CursorLineEnd => st.input.to_line_end(),
        Command::Abort => {
            return Some(DispatchOutcome::Continue);
        },
        Command::Quit => {
            *find_file = Some(st);
            return None;
        },
        _ => {},
    }
    *find_file = Some(st);
    Some(DispatchOutcome::Continue)
}

// ---------------------------------------------------------------------
// Completions that arrive
// ---------------------------------------------------------------------

/// The directory part of an input, up to and with its last slash.
pub open spec fn dir_prefix(s: Seq<char>) -> Seq<char> {
    s.subrange(0, paths::last_slash(s, s.len() as int) + 1)
}

/// The overlay when a list of completions has come.
pub open spec fn followed(s: FindFileView, t: TabsView) -> (FindFileView, TabsView) {
    if !s.arrow_follow || s.completions.len() == 0 || s.selected is Some {
        (s, t)
    } else {
        let e = s.completions[0];
        let s2 = FindFileView {
            selected: Some(0),
            show_side: true,
            input: input::input_of(dir_prefix(s.base_input) + e.name),
            ..s
        };
        if e.is_dir {
            (s2, t)
        } else {
            (
                FindFileView {
                    previous_tab: match s.previous_tab {
                        Some(p) => Some(p),
                        None => t.active,
                    },
                    ..s2
                },
                tabs::opened(t, e.full, false),
            )
        }
    }
}

/// Selects the first of the completions that have just come, while the
/// user goes through directories with the arrow keys.
pub fn auto_advance_arrow_follow(ff: &mut FindFileState, tabs: &mut Tabs)
    ensures
        (final(ff)@, final(tabs)@) == followed(old(ff)@, old(tabs)@),
{
    if !ff.arrow_follow || ff.completions.len() == 0 || ff.selected.is_some() {
        return;
    }
    ff.selected = Some(0);
    ff.show_side = true;
    assert(ff@.completions[0] == ff.completions[0]@);
    let n: usize = after_last_slash(ff.base_input.as_str());
    let mut new_input = substring(ff.base_input.as_str(), 0, n);
    new_input.push_str(ff.completions[0].name.as_str());
    ff.input.set(new_input.as_str());
    if !ff.completions[0].is_dir {
        if ff.previous_tab.is_none() {
            ff.previous_tab = tabs.active;
        }
        let path = ff.completions[0].full.copy();
        open_or_focus_tab(tabs, &path, false);
    }
}

/// Closing the overlay without an answer opens nothing, whatever was typed
/// before.
pub proof fn abort_opens_nothing(s: FindFileView, t: TabsView, fs: FsView)
    ensures
        overlay(Command::Abort, Some(s), t, fs) == (None::<FindFileView>, t, true),
{
}

/// The prompt opens on the directory of the active file, or without one on
/// that of the workspace, with a slash behind it, and asks what is there;
/// for saving under another name it opens on the file itself. The home
/// directory is written short.
pub proof fn the_prompt_opens_where_one_works(t: TabsView, fs: FsView, mode: FindFileMode)
    ensures
        ({
            let s = activated(None, mode, t, fs);
            let shown = s->0.input.before;
            &&& s is Some
            &&& s->0.mode == mode
            &&& s->0.input.after.len() == 0
            &&& s->0.pending.len() == 1
            &&& s->0.pending[0] =~= shown
            &&& s->0.selected is None
            &&& mode is Open && browser::active_path(t) is Some && paths::parent_of(
                browser::active_path(t)->0,
            ) is Some ==> shown == slashed(
                abbreviated(paths::parent_of(browser::active_path(t)->0)->0, fs.home),
            )
            &&& mode is SaveAs && browser::active_path(t) is Some ==> shown == abbreviated(
                browser::active_path(t)->0,
                fs.home,
            )
            &&& browser::active_path(t) is None && fs.root is Some ==> shown == slashed(
                abbreviated(fs.root->0, fs.home),
            )
            &&& browser::active_path(t) is None && fs.root is None ==> shown == seq!['/']
            &&& !(mode is SaveAs && browser::active_path(t) is Some) ==> shown.len() > 0
                && shown.last() == '/'
        }),
{
}

/// Typing puts the character before the cursor and deleting takes one away;
/// both give the selection up and ask what fits the text that results.
pub proof fn editing_asks_again(s: FindFileView, t: TabsView, fs: FsView, c: char)
    ensures
        ({
            let a = overlay(Command::InsertChar(c), Some(s), t, fs).0->0;
            let b = overlay(Command::DeleteBack, Some(s), t, fs).0->0;
            let n = s.pending.len() as int;
            &&& a.input.before == s.input.before.push(c)
            &&& a.input.after == s.input.after
            &&& a.selected is None
            &&& a.pending.len() == n + 1
            &&& a.pending[n] == s.input.before.push(c) + s.input.after
            &&& a.base_input == s.input.before.push(c) + s.input.after
            &&& s.input.before.len() == 0 ==> b == s
            &&& s.input.before.len() > 0 ==> {
                &&& b.input.before == s.input.before.drop_last()
                &&& b.input.after == s.input.after
                &&& b.selected is None
                &&& b.pending.len() == n + 1
                &&& b.pending[n] == s.input.before.drop_last() + s.input.after
            }
            &&& overlay(Command::InsertChar(c), Some(s), t, fs).1 == t
        }),
{
}

/// Enter opens the file that the input names, for good and with a leading
/// tilde read as the home directory; a directory or an empty input is not
/// opened, and saving opens nothing.
pub proof fn enter_opens_the_named_file(s: FindFileView, t: TabsView, fs: FsView)
    ensures
        ({
            let (s2, t2, mine) = overlay(Command::InsertNewline, Some(s), t, fs);
            let text = s.input.before + s.input.after;
            &&& mine
            &&& text.len() == 0 ==> s2 == Some(s) && t2 == t
            &&& text.len() > 0 && s.mode is Open && text.last() == '/' ==> s2 == Some(s) && t2 == t
            &&& text.len() > 0 && s.mode is Open && text.last() != '/' ==> {
                let named = if fs.home is Some && text[0] == '~' && (text.len() == 1 || text[1]
                    == '/') {
                    fs.home->0 + text.subrange(1, text.len() as int)
                } else {
                    text
                };
                &&& s2 is None
                &&& fs.canonical.dom().contains(named) ==> t2 == tabs::opened(
                    t,
                    fs.canonical[named],
                    true,
                )
                &&& !fs.canonical.dom().contains(named) ==> t2 == tabs::opened(t, named, true)
            }
            &&& text.len() > 0 && s.mode is SaveAs ==> s2 is None && t2 == t
        }),
{
}

/// Going through directories with the arrow keys, a list that comes has its
/// first entry selected and written behind the directory of the input; a
/// file is previewed, a directory is not. A selection that is there stays.
pub proof fn a_followed_list_selects_its_first_entry(s: FindFileView, t: TabsView)
    ensures
        ({
            let (s2, t2) = followed(s, t);
            let follows = s.arrow_follow && s.completions.len() > 0 && s.selected is None;
            let e = s.completions[0];
            let cut = s2.input.before.len() - e.name.len();
            &&& !follows ==> s2 == s && t2 == t
            &&& follows ==> {
                &&& s2.selected == Some(0usize)
                &&& s2.show_side
                &&& s2.input.after.len() == 0
                &&& 0 <= cut <= s.base_input.len()
                &&& s2.input.before == s.base_input.subrange(0, cut) + e.name
                &&& cut > 0 ==> s.base_input[cut - 1] == '/'
                &&& forall|k: int| cut <= k < s.base_input.len() ==> s.base_input[k] != '/'
                &&& e.is_dir ==> t2 == t && s2.previous_tab == s.previous_tab
                &&& !e.is_dir ==> t2 == tabs::opened(t, e.full, false)
                &&& !e.is_dir && s.previous_tab is None ==> s2.previous_tab == t.active
                &&& s.previous_tab is Some ==> s2.previous_tab == s.previous_tab
            }
        }),
{
    lemma_last_slash(s.base_input, s.base_input.len() as int);
}

proof fn lemma_last_slash(s: Seq<char>, n: int)
    requires
        0 <= n <= s.len(),
    ensures
        -1 <= paths::last_slash(s, n) < n,
        paths::last_slash(s, n) >= 0 ==> s[paths::last_slash(s, n)] == '/',
        forall|k: int| paths::last_slash(s, n) < k < n ==> s[k] != '/',
    decreases n,
{
    if n > 0 {
        lemma_last_slash(s, n - 1);
    }
}

} // verus!
