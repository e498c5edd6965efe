//! Key bindings, and how a key becomes a command.

use vstd::prelude::*;

use crate::chars;
use crate::chars::{char_is_control, digit_of};
use crate::command::Command;
use crate::keys;
use crate::keys::{KeyCode, KeyEvent, KeyModifiers};
use crate::seqs;

verus! {

/// One key and its command.
#[derive(Clone, Copy, Debug, PartialEq, Eq, Structural)]
pub struct Binding {
    pub key: KeyEvent,
    pub cmd: Command,
}

pub open spec fn on_key(k: KeyEvent) -> spec_fn(Binding) -> bool {
    |b: Binding| b.key == k
}

/// The command that a list of bindings has for a key.
pub open spec fn bound(list: Seq<Binding>, k: KeyEvent) -> Option<Command> {
    match seqs::first_index(list, on_key(k)) {
        Some(i) => Some(list[i].cmd),
        None => None,
    }
}

/// Commands by key.
pub struct Bindings {
    pub list: Vec<Binding>,
}

impl View for Bindings {
    type V = Map<KeyEvent, Command>;

    open spec fn view(&self) -> Map<KeyEvent, Command> {
        Map::new(|k: KeyEvent| bound(self.list@, k) is Some, |k: KeyEvent| bound(self.list@, k)->0)
    }
}

impl Bindings {
    pub fn new() -> (b: Bindings)
        ensures
            b@ == Map::<KeyEvent, Command>::empty(),
    {
        let b = Bindings { list: Vec::new() };
        assert(b@ =~= Map::<KeyEvent, Command>::empty());
        b
    }

    fn find(&self, k: KeyEvent) -> (r: Option<usize>)
        ensures
            match r {
                Some(i) => seqs::first_index(self.list@, on_key(k)) == Some(i as int) && i
                    < self.list.len(),
                None => seqs::first_index(self.list@, on_key(k)) is None,
            },
    {
        let n: usize = self.list.len();
        let mut i: usize = 0;
        while i < n
            invariant
                i <= n,
                n == self.list.len(),
                forall|j: int| 0 <= j < i ==> !on_key(k)(#[trigger] self.list@[j]),
            decreases n - i,
        {
            if self.list[i].key == k {
                proof {
                    seqs::lemma_first_is(self.list@, on_key(k), 0, i as int);
                }
                return Some(i);
            }
            i = i + 1;
        }
        proof {
            seqs::lemma_first_none(self.list@, on_key(k), 0);
        }
        None
    }

    /// The command for a key.
    pub fn get(&self, k: KeyEvent) -> (r: Option<Command>)
        ensures
            r is Some <==> self@.dom().contains(k),
            r is Some ==> r->0 == self@[k],
    {
        match self.find(k) {
            Some(i) => Some(self.list[i].cmd),
            None => None,
        }
    }

    /// Binds a key, over what it was bound to.
    pub fn insert(&mut self, k: KeyEvent, cmd: Command)
        ensures
            final(self)@ == old(self)@.insert(k, cmd),
    {
        let ghost was = self.list@;
        match self.find(k) {
            Some(i) => {
                proof {
                    seqs::lemma_first_from(was, on_key(k), 0);
                }
                self.list.set(i, Binding { key: k, cmd });
                proof {
                    let now = self.list@;
                    assert forall|x: KeyEvent| #[trigger] bound(now, x) == if x == k {
                        Some(cmd)
                    } else {
                        bound(was, x)
                    } by {
                        lemma_same_keys(was, now, x, 0);
                        seqs::lemma_first_from(was, on_key(x), 0);
                    }
                }
            },
            None => {
                self.list.push(Binding { key: k, cmd });
                proof {
                    let now = self.list@;
                    assert forall|x: KeyEvent| #[trigger] bound(now, x) == if x == k {
                        Some(cmd)
                    } else {
                        bound(was, x)
                    } by {
                        seqs::lemma_first_from(was, on_key(x), 0);
                        let f = seqs::first_from(was, on_key(x), 0);
                        assert forall|j: int| 0 <= j < f implies !on_key(x)(#[trigger] now[j]) by {
                            assert(!on_key(x)(was[j]));
                        }
                        if f < was.len() {
                            seqs::lemma_first_is(now, on_key(x), 0, f);
                        } else if x == k {
                            seqs::lemma_first_is(now, on_key(x), 0, was.len() as int);
                        } else {
                            seqs::lemma_first_none(now, on_key(x), 0);
                        }
                    }
                }
            },
        }
        assert(self@ =~= old(self)@.insert(k, cmd));
    }
}

/// Lists with the same keys have the first match at the same place.
proof fn lemma_same_keys(a: Seq<Binding>, b: Seq<Binding>, k: KeyEvent, i: int)
    requires
        a.len() == b.len(),
        0 <= i <= a.len(),
        forall|j: int| 0 <= j < a.len() ==> (#[trigger] a[j]).key == b[j].key,
    ensures
        seqs::first_from(a, on_key(k), i) == seqs::first_from(b, on_key(k), i),
    decreases a.len() - i,
{
    if i < a.len() {
        assert(a[i].key == b[i].key);
        lemma_same_keys(a, b, k, i + 1);
    }
}

/// The second keys that follow a prefix key.
pub struct ChordTable {
    pub prefix: KeyEvent,
    pub table: Bindings,
}

pub open spec fn on_prefix(k: KeyEvent) -> spec_fn(ChordTable) -> bool {
    |c: ChordTable| c.prefix == k
}

/// All bindings. Contexts come before the global ones.
pub struct Keymap {
    pub direct: Bindings,
    pub chords: Vec<ChordTable>,
    pub browser: Bindings,
    pub find_file: Bindings,
    pub file_search: Bindings,
}

pub struct KeymapView {
    pub direct: Map<KeyEvent, Command>,
    pub chords: Map<KeyEvent, Map<KeyEvent, Command>>,
    pub browser: Map<KeyEvent, Command>,
    pub find_file: Map<KeyEvent, Command>,
    pub file_search: Map<KeyEvent, Command>,
}

pub open spec fn chord_map(s: Seq<ChordTable>) -> Map<KeyEvent, Map<KeyEvent, Command>> {
    Map::new(
        |k: KeyEvent| seqs::first_index(s, on_prefix(k)) is Some,
        |k: KeyEvent| s[seqs::first_index(s, on_prefix(k))->0].table@,
    )
}

impl View for Keymap {
    type V = KeymapView;

    open spec fn view(&self) -> KeymapView {
        KeymapView {
            direct: self.direct@,
            chords: chord_map(self.chords@),
            browser: self.browser@,
            find_file: self.find_file@,
            file_search: self.file_search@,
        }
    }
}

/// The chords with one more second key.
pub open spec fn with_chord(
    m: Map<KeyEvent, Map<KeyEvent, Command>>,
    prefix: KeyEvent,
    second: KeyEvent,
    cmd: Command,
) -> Map<KeyEvent, Map<KeyEvent, Command>> {
    let table = if m.dom().contains(prefix) {
        m[prefix]
    } else {
        Map::empty()
    };
    m.insert(prefix, table.insert(second, cmd))
}

impl Keymap {
    pub fn new() -> (k: Keymap)
        ensures
            k@.direct == Map::<KeyEvent, Command>::empty(),
            k@.chords == Map::<KeyEvent, Map<KeyEvent, Command>>::empty(),
            k@.browser == Map::<KeyEvent, Command>::empty(),
            k@.find_file == Map::<KeyEvent, Command>::empty(),
            k@.file_search == Map::<KeyEvent, Command>::empty(),
    {
        let k = Keymap {
            direct: Bindings::new(),
            chords: Vec::new(),
            browser: Bindings::new(),
            find_file: Bindings::new(),
            file_search: Bindings::new(),
        };
        assert(k@.chords =~= Map::<KeyEvent, Map<KeyEvent, Command>>::empty());
        k
    }

    pub fn insert_direct(&mut self, k: KeyEvent, cmd: Command)
        ensures
            final(self)@ == (KeymapView { direct: old(self)@.direct.insert(k, cmd), ..old(self)@ }),
    {
        self.direct.insert(k, cmd);
    }

    fn find_prefix(&self, k: KeyEvent) -> (r: Option<usize>)
        ensures
            match r {
                Some(i) => seqs::first_index(self.chords@, on_prefix(k)) == Some(i as int) && i
                    < self.chords.len(),
                None => seqs::first_index(self.chords@, on_prefix(k)) is None,
            },
    {
        let n: usize = self.chords.len();
        let mut i: usize = 0;
        while i < n
            invariant
                i <= n,
                n == self.chords.len(),
                forall|j: int| 0 <= j < i ==> !on_prefix(k)(#[trigger] self.chords@[j]),
            decreases n - i,
        {
            if self.chords[i].prefix == k {
                proof {
                    seqs::lemma_first_is(self.chords@, on_prefix(k), 0, i as int);
                }
                return Some(i);
            }
            i = i + 1;
        }
        proof {
            seqs::lemma_first_none(self.chords@, on_prefix(k), 0);
        }
        None
    }

    pub fn insert_chord(&mut self, prefix: KeyEvent, second: KeyEvent, cmd: Command)
        ensures
            final(self)@ == (KeymapView {
                chords: with_chord(old(self)@.chords, prefix, second, cmd),
                ..old(self)@
            }),
    {
        let ghost was = self.chords@;
        match self.find_prefix(prefix) {
            Some(i) => {
                proof {
                    seqs::lemma_first_from(was, on_prefix(prefix), 0);
                }
                let mut c = self.chords.remove(i);
                c.table.insert(second, cmd);
                self.chords.insert(i, c);
                proof {
                    let now = self.chords@;
                    assert(now.len() == was.len());
                    assert forall|j: int| 0 <= j < was.len() implies (#[trigger] was[j]).prefix
                        == now[j].prefix && (j != i ==> now[j] == was[j]) by {}
                    assert forall|x: KeyEvent|
                        #![trigger chord_map(now).dom().contains(x)]
                        chord_map(now).dom().contains(x) == with_chord(
                            chord_map(was),
                            prefix,
                            second,
                            cmd,
                        ).dom().contains(x) by {
                        lemma_same_prefixes(was, now, x, 0);
                    }
                    assert forall|x: KeyEvent|
                        #![trigger chord_map(now)[x]]
                        chord_map(now).dom().contains(x) implies chord_map(now)[x] == with_chord(
                        chord_map(was),
                        prefix,
                        second,
                        cmd,
                    )[x] by {
                        lemma_same_prefixes(was, now, x, 0);
                        seqs::lemma_first_from(was, on_prefix(x), 0);
                    }
                    assert(chord_map(now) =~= with_chord(chord_map(was), prefix, second, cmd));
                }
            },
            None => {
                let mut table = Bindings::new();
                table.insert(second, cmd);
                self.chords.push(ChordTable { prefix, table });
                proof {
                    let now = self.chords@;
                    assert(now.drop_last() =~= was);
                    assert forall|x: KeyEvent| #[trigger]
                        chord_map(now).dom().contains(x) == with_chord(
                            chord_map(was),
                            prefix,
                            second,
                            cmd,
                        ).dom().contains(x) by {
                        lemma_pushed_prefix(was, now, x);
                    }
                    assert forall|x: KeyEvent| #[trigger]
                        chord_map(now).dom().contains(x) implies chord_map(now)[x] == with_chord(
                        chord_map(was),
                        prefix,
                        second,
                        cmd,
                    )[x] by {
                        lemma_pushed_prefix(was, now, x);
                    }
                    assert(chord_map(now) =~= with_chord(chord_map(was), prefix, second, cmd));
                }
            },
        }
    }

    /// The command that a second key has after a prefix.
    pub fn lookup_chord(&self, prefix: KeyEvent, k: KeyEvent) -> (r: Option<Command>)
        ensures
            r == chord_command(self@, prefix, k),
    {
        match self.find_prefix(prefix) {
            Some(i) => self.chords[i].table.get(k),
            None => None,
        }
    }

    pub fn lookup_direct(&self, k: KeyEvent) -> (r: Option<Command>)
        ensures
            r == at_key(self@.direct, k),
    {
        self.direct.get(k)
    }

    pub fn lookup_browser(&self, k: KeyEvent) -> (r: Option<Command>)
        ensures
            r == at_key(self@.browser, k),
    {
        self.browser.get(k)
    }

    pub fn lookup_find_file(&self, k: KeyEvent) -> (r: Option<Command>)
        ensures
            r == at_key(self@.find_file, k),
    {
        self.find_file.get(k)
    }

    pub fn lookup_file_search(&self, k: KeyEvent) -> (r: Option<Command>)
        ensures
            r == at_key(self@.file_search, k),
    {
        self.file_search.get(k)
    }

    /// Whether a key opens a chord.
    pub fn is_prefix(&self, k: KeyEvent) -> (r: bool)
        ensures
            r == self@.chords.dom().contains(k),
    {
        self.find_prefix(k).is_some()
    }
}

proof fn lemma_same_prefixes(a: Seq<ChordTable>, b: Seq<ChordTable>, k: KeyEvent, i: int)
    requires
        a.len() == b.len(),
        0 <= i <= a.len(),
        forall|j: int| 0 <= j < a.len() ==> (#[trigger] a[j]).prefix == b[j].prefix,
    ensures
        seqs::first_from(a, on_prefix(k), i) == seqs::first_from(b, on_prefix(k), i),
    decreases a.len() - i,
{
    if i < a.len() {
        assert(a[i].prefix == b[i].prefix);
        lemma_same_prefixes(a, b, k, i + 1);
    }
}

proof fn lemma_pushed_prefix(was: Seq<ChordTable>, now: Seq<ChordTable>, x: KeyEvent)
    requires
        now.len() == was.len() + 1,
        now.drop_last() == was,
    ensures
        seqs::first_from(now, on_prefix(x), 0) == if seqs::first_from(was, on_prefix(x), 0)
            < was.len() {
            seqs::first_from(was, on_prefix(x), 0)
        } else if x == now.last().prefix {
            was.len() as int
        } else {
            now.len() as int
        },
        0 <= seqs::first_from(was, on_prefix(x), 0) <= was.len(),
        forall|j: int| 0 <= j < was.len() ==> now[j] == was[j],
{
    assert forall|j: int| 0 <= j < was.len() implies now[j] == was[j] by {
        assert(now.drop_last()[j] == now[j]);
    }
    seqs::lemma_first_from(was, on_prefix(x), 0);
    let f = seqs::first_from(was, on_prefix(x), 0);
    assert forall|j: int| 0 <= j < f implies !on_prefix(x)(#[trigger] now[j]) by {
        assert(!on_prefix(x)(was[j]));
    }
    if f < was.len() {
        seqs::lemma_first_is(now, on_prefix(x), 0, f);
    } else if x == now.last().prefix {
        seqs::lemma_first_is(now, on_prefix(x), 0, was.len() as int);
    } else {
        seqs::lemma_first_none(now, on_prefix(x), 0);
    }
}

pub open spec fn at_key(m: Map<KeyEvent, Command>, k: KeyEvent) -> Option<Command> {
    if m.dom().contains(k) {
        Some(m[k])
    } else {
        None
    }
}

pub open spec fn chord_command(m: KeymapView, prefix: KeyEvent, k: KeyEvent) -> Option<Command> {
    if m.chords.dom().contains(prefix) {
        at_key(m.chords[prefix], k)
    } else {
        None
    }
}

// ---------------------------------------------------------------------
// From key to command
// ---------------------------------------------------------------------

/// What of a chord has been typed.
#[derive(Clone, Copy, Debug, PartialEq, Eq, Structural)]
pub struct ChordState {
    pub pending: Option<KeyEvent>,
    /// The number typed between the prefix and the second key.
    pub count: Option<usize>,
    /// A macro was just run: `e` alone runs it again.
    pub macro_repeat: bool,
}

impl ChordState {
    pub fn new() -> (c: ChordState)
        ensures
            c == (ChordState { pending: None, count: None, macro_repeat: false }),
    {
        ChordState { pending: None, count: None, macro_repeat: false }
    }
}

/// What a key came to.
#[derive(Clone, Copy, Debug, PartialEq, Eq, Structural)]
pub enum Resolved {
    Command(Command),
    /// The first key of a chord: the next key completes it.
    PrefixStored,
    /// Nothing.
    Continue,
}

/// Where the focus is and which overlays are open.
#[derive(Clone, Copy, Debug, PartialEq, Eq, Structural)]
pub struct KeyContext {
    pub browser_focused: bool,
    pub find_file_active: bool,
    pub file_search_active: bool,
}

/// A key without a binding that types itself: a printable character with
/// neither control nor alt.
pub open spec fn self_insert(k: KeyEvent) -> Option<Command> {
    match k.code {
        KeyCode::Char(c) => if k.modifiers.ctrl || k.modifiers.alt || chars::control(c) {
            None
        } else {
            Some(Command::InsertChar(c))
        },
        _ => None,
    }
}

/// Printable characters without control or alt type themselves.
pub fn implicit_insert(k: &KeyEvent) -> (r: Option<Command>)
    ensures
        r == self_insert(*k),
{
    match k.code {
        KeyCode::Char(c) => {
            if k.modifiers.ctrl || k.modifiers.alt || char_is_control(c) {
                None
            } else {
                Some(Command::InsertChar(c))
            }
        },
        _ => None,
    }
}

/// The digit that a bare key types.
pub open spec fn bare_digit(k: KeyEvent) -> Option<int> {
    match k.code {
        KeyCode::Char(c) => if keys::bare(k.modifiers) && chars::is_digit(c) {
            Some(chars::digit_value(c) as int)
        } else {
            None
        },
        _ => None,
    }
}

/// A count with one more digit.
pub open spec fn counted(count: Option<usize>, d: int) -> usize {
    let prev = match count {
        Some(n) => n as int,
        None => 0,
    };
    if prev * 10 + d <= usize::MAX {
        (prev * 10 + d) as usize
    } else {
        usize::MAX
    }
}

/// The key `e` alone.
pub open spec fn is_repeat_key(k: KeyEvent) -> bool {
    keys::bare(k.modifiers) && k.code == KeyCode::Char('e')
}

/// What a key comes to when no chord is pending and no macro is repeated:
/// the find-file overlay comes first, then the file-search overlay, the
/// browser unless the file search is open, the global bindings, the chord
/// prefixes, and last the characters that type themselves.
pub open spec fn resolve_plain(k: KeyEvent, m: KeymapView, ctx: KeyContext) -> Resolved {
    if ctx.find_file_active && at_key(m.find_file, k) is Some {
        Resolved::Command(at_key(m.find_file, k)->0)
    } else if ctx.file_search_active && at_key(m.file_search, k) is Some {
        Resolved::Command(at_key(m.file_search, k)->0)
    } else if ctx.browser_focused && !ctx.file_search_active && at_key(m.browser, k) is Some {
        Resolved::Command(at_key(m.browser, k)->0)
    } else if at_key(m.direct, k) is Some {
        Resolved::Command(at_key(m.direct, k)->0)
    } else if m.chords.dom().contains(k) {
        Resolved::PrefixStored
    } else if (!ctx.browser_focused || ctx.file_search_active) && self_insert(k) is Some {
        Resolved::Command(self_insert(k)->0)
    } else {
        Resolved::Continue
    }
}

/// What a key comes to, and what is then pending. The count of a chord goes
/// to a macro that is to be played; any other command drops it.
pub open spec fn resolve(
    k: KeyEvent,
    m: KeymapView,
    c: ChordState,
    ctx: KeyContext,
) -> (Resolved, ChordState) {
    if c.macro_repeat && is_repeat_key(k) {
        (Resolved::Command(Command::KbdMacroExecute), c)
    } else {
        let c1 = ChordState { macro_repeat: false, ..c };
        match c1.pending {
            Some(prefix) => match bare_digit(k) {
                Some(d) => (
                    Resolved::Continue,
                    ChordState { count: Some(counted(c1.count, d)), ..c1 },
                ),
                None => {
                    let c2 = ChordState { pending: None, ..c1 };
                    match chord_command(m, prefix, k) {
                        Some(cmd) => (
                            Resolved::Command(cmd),
                            if cmd is KbdMacroExecute {
                                c2
                            } else {
                                ChordState { count: None, ..c2 }
                            },
                        ),
                        None => (Resolved::Continue, ChordState { count: None, ..c2 }),
                    }
                },
            },
            None => {
                let r = resolve_plain(k, m, ctx);
                (
                    r,
                    if r is PrefixStored {
                        ChordState { pending: Some(k), ..c1 }
                    } else {
                        c1
                    },
                )
            },
        }
    }
}

fn resolve_unchorded(k: KeyEvent, keymap: &Keymap, ctx: KeyContext) -> (r: Resolved)
    ensures
        r == resolve_plain(k, keymap@, ctx),
{
    if ctx.find_file_active {
        if let Some(cmd) = keymap.lookup_find_file(k) {
            return Resolved::Command(cmd);
        }
    }
    if ctx.file_search_active {
        if let Some(cmd) = keymap.lookup_file_search(k) {
            return Resolved::Command(cmd);
        }
    }
    if ctx.browser_focused && !ctx.file_search_active {
        if let Some(cmd) = keymap.lookup_browser(k) {
            return Resolved::Command(cmd);
        }
    }
    if let Some(cmd) = keymap.lookup_direct(k) {
        return Resolved::Command(cmd);
    }
    if keymap.is_prefix(k) {
        return Resolved::PrefixStored;
    }
    if !ctx.browser_focused || ctx.file_search_active {
        if let Some(cmd) = implicit_insert(&k) {
            return Resolved::Command(cmd);
        }
    }
    Resolved::Continue
}

/// Finds what a key comes to, and moves the chord state on.
pub fn resolve_command(
    k: KeyEvent,
    keymap: &Keymap,
    chord: &mut ChordState,
    ctx: KeyContext,
) -> (r: Resolved)
    ensures
        (r, *final(chord)) == resolve(k, keymap@, *old(chord), ctx),
{
    if chord.macro_repeat {
        if k.modifiers.is_empty() {
            if let KeyCode::Char(c) = k.code {
                if c == 'e' {
                    return Resolved::Command(Command::KbdMacroExecute);
                }
            }
        }
        chord.macro_repeat = false;
    }
    if let Some(prefix) = chord.pending {
        if k.modifiers.is_empty() {
            if let KeyCode::Char(c) = k.code {
                if let Some(d) = digit_of(c) {
                    let prev: usize = match chord.count {
                        Some(n) => n,
                        None => 0,
                    };
                    chord.count = Some(
                        if prev <= (usize::MAX - d) / 10 {
                            prev * 10 + d
                        } else {
                            usize::MAX
                        },
                    );
                    return Resolved::Continue;
                }
            }
        }
        chord.pending = None;
        if let Some(cmd) = keymap.lookup_chord(prefix, k) {
            if let Command::KbdMacroExecute = cmd {
            } else {
                chord.count = None;
            }
            return Resolved::Command(cmd);
        }
        chord.count = None;
        return Resolved::Continue;
    }
    let r = resolve_unchorded(k, keymap, ctx);
    if let Resolved::PrefixStored = r {
        chord.pending = Some(k);
    }
    r
}

/// A chord that does not resolve leaves nothing behind: the next key is
/// resolved as if the chord had not been begun.
pub proof fn failed_chord_leaves_nothing(k: KeyEvent, m: KeymapView, c: ChordState, ctx: KeyContext)
    requires
        c.pending is Some,
        bare_digit(k) is None,
        chord_command(m, c.pending->0, k) is None,
        !(c.macro_repeat && is_repeat_key(k)),
    ensures
        resolve(k, m, c, ctx) == (
            Resolved::Continue,
            ChordState { pending: None, count: None, macro_repeat: false },
        ),
{
}

/// A chord that resolves to a command leaves no count behind, but for the
/// macro that is played as often.
pub proof fn resolved_chord_drops_the_count(
    k: KeyEvent,
    m: KeymapView,
    c: ChordState,
    ctx: KeyContext,
    cmd: Command,
)
    requires
        c.pending is Some,
        bare_digit(k) is None,
        chord_command(m, c.pending->0, k) == Some(cmd),
        !(c.macro_repeat && is_repeat_key(k)),
    ensures
        resolve(k, m, c, ctx).0 == Resolved::Command(cmd),
        resolve(k, m, c, ctx).1.pending is None,
        resolve(k, m, c, ctx).1.count == (if cmd is KbdMacroExecute {
            c.count
        } else {
            None
        }),
{
}

/// Digits between the keys of a chord add up to a decimal count and keep
/// the chord pending.
pub proof fn chord_digits_accumulate(
    k: KeyEvent,
    m: KeymapView,
    c: ChordState,
    ctx: KeyContext,
    d: int,
    n: usize,
)
    requires
        c.pending is Some,
        !c.macro_repeat,
        bare_digit(k) == Some(d),
        c.count == Some(n),
        n * 10 + d <= usize::MAX,
    ensures
        resolve(k, m, c, ctx).0 is Continue,
        resolve(k, m, c, ctx).1.pending == c.pending,
        resolve(k, m, c, ctx).1.count == Some((n * 10 + d) as usize),
{
}

// ---------------------------------------------------------------------
// The bindings that hold without a configuration
// ---------------------------------------------------------------------

pub open spec fn plain_key(code: KeyCode) -> KeyEvent {
    KeyEvent { modifiers: KeyModifiers { ctrl: false, alt: false, shift: false }, code }
}

pub open spec fn ctrl_key(code: KeyCode) -> KeyEvent {
    KeyEvent { modifiers: KeyModifiers { ctrl: true, alt: false, shift: false }, code }
}

pub open spec fn alt_key(code: KeyCode) -> KeyEvent {
    KeyEvent { modifiers: KeyModifiers { ctrl: false, alt: true, shift: false }, code }
}

pub open spec fn shift_key(code: KeyCode) -> KeyEvent {
    KeyEvent { modifiers: KeyModifiers { ctrl: false, alt: false, shift: true }, code }
}

pub open spec fn default_direct() -> Map<KeyEvent, Command> {
    Map::empty().insert(plain_key(KeyCode::Up), Command::CursorUp).insert(
        plain_key(KeyCode::Down),
        Command::CursorDown,
    ).insert(plain_key(KeyCode::Left), Command::CursorLeft).insert(
        plain_key(KeyCode::Right),
        Command::CursorRight,
    ).insert(plain_key(KeyCode::Home), Command::CursorLineStart).insert(
        plain_key(KeyCode::End),
        Command::CursorLineEnd,
    ).insert(plain_key(KeyCode::PageUp), Command::CursorPageUp).insert(
        plain_key(KeyCode::PageDown),
        Command::CursorPageDown,
    ).insert(ctrl_key(KeyCode::Home), Command::CursorFileStart).insert(
        ctrl_key(KeyCode::End),
        Command::CursorFileEnd,
    ).insert(ctrl_key(KeyCode::Char('a')), Command::CursorLineStart).insert(
        ctrl_key(KeyCode::Char('e')),
        Command::CursorLineEnd,
    ).insert(plain_key(KeyCode::Enter), Command::InsertNewline).insert(
        plain_key(KeyCode::Tab),
        Command::InsertTab,
    ).insert(plain_key(KeyCode::Backspace), Command::DeleteBack).insert(
        plain_key(KeyCode::Delete),
        Command::DeleteForward,
    ).insert(ctrl_key(KeyCode::Char('d')), Command::DeleteForward).insert(
        ctrl_key(KeyCode::Char(' ')),
        Command::SetMark,
    ).insert(ctrl_key(KeyCode::Char('w')), Command::KillRegion).insert(
        ctrl_key(KeyCode::Char('k')),
        Command::KillLine,
    ).insert(ctrl_key(KeyCode::Char('y')), Command::Yank).insert(
        plain_key(KeyCode::Esc),
        Command::Abort,
    ).insert(ctrl_key(KeyCode::Char('z')), Command::Suspend).insert(
        ctrl_key(KeyCode::Right),
        Command::TabNext,
    ).insert(ctrl_key(KeyCode::Left), Command::TabPrev).insert(
        shift_key(KeyCode::Tab),
        Command::TabPrev,
    ).insert(plain_key(KeyCode::BackTab), Command::TabPrev).insert(
        ctrl_key(KeyCode::Char('s')),
        Command::InBufferSearch,
    ).insert(alt_key(KeyCode::Char('b')), Command::JumpBack).insert(
        alt_key(KeyCode::Char('f')),
        Command::JumpForward,
    ).insert(alt_key(KeyCode::Char('.')), Command::NextIssue).insert(
        alt_key(KeyCode::Char(',')),
        Command::PrevIssue,
    ).insert(alt_key(KeyCode::Enter), Command::LspGotoDefinition).insert(
        alt_key(KeyCode::Char('i')),
        Command::LspCodeAction,
    ).insert(alt_key(KeyCode::Char('o')), Command::Outline)
}

/// What may follow `ctrl+x`.
pub open spec fn default_chord() -> Map<KeyEvent, Command> {
    Map::empty().insert(ctrl_key(KeyCode::Char('c')), Command::Quit).insert(
        ctrl_key(KeyCode::Char('s')),
        Command::Save,
    ).insert(ctrl_key(KeyCode::Char('d')), Command::SaveNoFormat).insert(
        ctrl_key(KeyCode::Char('a')),
        Command::SaveAll,
    ).insert(
        plain_key(KeyCode::Char('k')),
        Command::KillBuffer,
    ).insert(plain_key(KeyCode::Char('(')), Command::KbdMacroStart).insert(
        plain_key(KeyCode::Char(')')),
        Command::KbdMacroEnd,
    ).insert(plain_key(KeyCode::Char('e')), Command::KbdMacroExecute)
}

pub open spec fn default_browser() -> Map<KeyEvent, Command> {
    Map::empty().insert(plain_key(KeyCode::Right), Command::ExpandDir).insert(
        plain_key(KeyCode::Left),
        Command::CollapseDir,
    ).insert(plain_key(KeyCode::Enter), Command::OpenSelected).insert(
        alt_key(KeyCode::Enter),
        Command::OpenSelectedBg,
    )
}

pub open spec fn default_file_search() -> Map<KeyEvent, Command> {
    Map::empty().insert(alt_key(KeyCode::Char('1')), Command::ToggleSearchCase).insert(
        alt_key(KeyCode::Char('2')),
        Command::ToggleSearchRegex,
    ).insert(alt_key(KeyCode::Char('3')), Command::ToggleSearchReplace).insert(
        alt_key(KeyCode::Enter),
        Command::ReplaceAll,
    )
}

fn plain(code: KeyCode) -> (k: KeyEvent)
    ensures
        k == plain_key(code),
{
    KeyEvent::new(KeyModifiers::none(), code)
}

fn ctrl(code: KeyCode) -> (k: KeyEvent)
    ensures
        k == ctrl_key(code),
{
    KeyEvent::new(KeyModifiers::control(), code)
}

fn alt(code: KeyCode) -> (k: KeyEvent)
    ensures
        k == alt_key(code),
{
    KeyEvent::new(KeyModifiers::alt(), code)
}

fn direct_bindings() -> (b: Bindings)
    ensures
        b@ == default_direct(),
{
    let mut b = Bindings::new();
    b.insert(plain(KeyCode::Up), Command::CursorUp);
    b.insert(plain(KeyCode::Down), Command::CursorDown);
    b.insert(plain(KeyCode::Left), Command::CursorLeft);
    b.insert(plain(KeyCode::Right), Command::CursorRight);
    b.insert(plain(KeyCode::Home), Command::CursorLineStart);
    b.insert(plain(KeyCode::End), Command::CursorLineEnd);
    b.insert(plain(KeyCode::PageUp), Command::CursorPageUp);
    b.insert(plain(KeyCode::PageDown), Command::CursorPageDown);
    b.insert(ctrl(KeyCode::Home), Command::CursorFileStart);
    b.insert(ctrl(KeyCode::End), Command::CursorFileEnd);
    b.insert(ctrl(KeyCode::Char('a')), Command::CursorLineStart);
    b.insert(ctrl(KeyCode::Char('e')), Command::CursorLineEnd);
    b.insert(plain(KeyCode::Enter), Command::InsertNewline);
    b.insert(plain(KeyCode::Tab), Command::InsertTab);
    b.insert(plain(KeyCode::Backspace), Command::DeleteBack);
    b.insert(plain(KeyCode::Delete), Command::DeleteForward);
    b.insert(ctrl(KeyCode::Char('d')), Command::DeleteForward);
    b.insert(ctrl(KeyCode::Char(' ')), Command::SetMark);
    b.insert(ctrl(KeyCode::Char('w')), Command::KillRegion);
    b.insert(ctrl(KeyCode::Char('k')), Command::KillLine);
    b.insert(ctrl(KeyCode::Char('y')), Command::Yank);
    b.insert(plain(KeyCode::Esc), Command::Abort);
    b.insert(ctrl(KeyCode::Char('z')), Command::Suspend);
    b.insert(ctrl(KeyCode::Right), Command::TabNext);
    b.insert(ctrl(KeyCode::Left), Command::TabPrev);
    b.insert(KeyEvent::new(KeyModifiers::shift(), KeyCode::Tab), Command::TabPrev);
    b.insert(plain(KeyCode::BackTab), Command::TabPrev);
    b.insert(ctrl(KeyCode::Char('s')), Command::InBufferSearch);
    b.insert(alt(KeyCode::Char('b')), Command::JumpBack);
    b.insert(alt(KeyCode::Char('f')), Command::JumpForward);
    b.insert(alt(KeyCode::Char('.')), Command::NextIssue);
    b.insert(alt(KeyCode::Char(',')), Command::PrevIssue);
    b.insert(alt(KeyCode::Enter), Command::LspGotoDefinition);
    b.insert(alt(KeyCode::Char('i')), Command::LspCodeAction);
    b.insert(alt(KeyCode::Char('o')), Command::Outline);
    b
}

fn chord_bindings() -> (b: Bindings)
    ensures
        b@ == default_chord(),
{
    let mut b = Bindings::new();
    b.insert(ctrl(KeyCode::Char('c')), Command::Quit);
    b.insert(ctrl(KeyCode::Char('s')), Command::Save);
    b.insert(ctrl(KeyCode::Char('d')), Command::SaveNoFormat);
    b.insert(ctrl(KeyCode::Char('a')), Command::SaveAll);
    b.insert(plain(KeyCode::Char('k')), Command::KillBuffer);
    b.insert(plain(KeyCode::Char('(')), Command::KbdMacroStart);
    b.insert(plain(KeyCode::Char(')')), Command::KbdMacroEnd);
    b.insert(plain(KeyCode::Char('e')), Command::KbdMacroExecute);
    b
}

/// The bindings that hold without a configuration.
pub fn default_keymap() -> (k: Keymap)
    ensures
        k@.direct == default_direct(),
        k@.chords == Map::<KeyEvent, Map<KeyEvent, Command>>::empty().insert(
            ctrl_key(KeyCode::Char('x')),
            default_chord(),
        ),
        k@.browser == default_browser(),
        k@.find_file == Map::<KeyEvent, Command>::empty().insert(
            plain_key(KeyCode::Tab),
            Command::FindFileTabComplete,
        ),
        k@.file_search == default_file_search(),
{
    let mut k = Keymap::new();
    k.direct = direct_bindings();
    let prefix = ctrl(KeyCode::Char('x'));
    let table = chord_bindings();
    let mut chords: Vec<ChordTable> = Vec::new();
    chords.push(ChordTable { prefix, table });
    k.chords = chords;
    proof {
        let empty = Seq::<ChordTable>::empty();
        assert(k.chords@.drop_last() =~= empty);
        assert forall|x: KeyEvent| #[trigger] chord_map(k.chords@).dom().contains(x) <==> x
            == prefix by {
            lemma_pushed_prefix(empty, k.chords@, x);
        }
        lemma_pushed_prefix(empty, k.chords@, prefix);
        assert(chord_map(k.chords@) =~= Map::<KeyEvent, Map<KeyEvent, Command>>::empty().insert(
            prefix,
            default_chord(),
        ));
    }
    k.browser.insert(plain(KeyCode::Right), Command::ExpandDir);
    k.browser.insert(plain(KeyCode::Left), Command::CollapseDir);
    k.browser.insert(plain(KeyCode::Enter), Command::OpenSelected);
    k.browser.insert(alt(KeyCode::Enter), Command::OpenSelectedBg);
    k.find_file.insert(plain(KeyCode::Tab), Command::FindFileTabComplete);
    k.file_search.insert(alt(KeyCode::Char('1')), Command::ToggleSearchCase);
    k.file_search.insert(alt(KeyCode::Char('2')), Command::ToggleSearchRegex);
    k.file_search.insert(alt(KeyCode::Char('3')), Command::ToggleSearchReplace);
    k.file_search.insert(alt(KeyCode::Enter), Command::ReplaceAll);
    k
}

/// Without a chord a key goes to the overlay that is open before the
/// browser, to the browser before the bindings for all, to these before it
/// starts a chord; and what is bound nowhere types itself, but not in the
/// browser.
pub proof fn the_nearest_binding_counts(k: KeyEvent, m: KeymapView, c: ChordState, ctx: KeyContext, cmd: Command)
    requires
        c.pending is None,
        !c.macro_repeat,
    ensures
        ({
            let (r, c2) = resolve(k, m, c, ctx);
            let f = ctx.find_file_active && m.find_file.dom().contains(k);
            let s = ctx.file_search_active && m.file_search.dom().contains(k);
            let b = ctx.browser_focused && !ctx.file_search_active && m.browser.dom().contains(k);
            let d = m.direct.dom().contains(k);
            let p = m.chords.dom().contains(k);
            &&& f ==> r == Resolved::Command(m.find_file[k])
            &&& !f && s ==> r == Resolved::Command(m.file_search[k])
            &&& !f && !s && b ==> r == Resolved::Command(m.browser[k])
            &&& !f && !s && !b && d ==> r == Resolved::Command(m.direct[k])
            &&& !f && !s && !b && !d && p ==> r is PrefixStored && c2 == (ChordState {
                pending: Some(k),
                ..c
            })
            &&& f || s || b || d || !p ==> c2 == c
            &&& !f && !s && !b && !d && !p && ctx.browser_focused && !ctx.file_search_active ==> r
                is Continue
            &&& k.code matches KeyCode::Char(x) ==> !f && !s && !b && !d && !p && (
            !ctx.browser_focused || ctx.file_search_active) ==> (if k.modifiers.ctrl
                || k.modifiers.alt || chars::control(x) {
                r is Continue
            } else {
                r == Resolved::Command(Command::InsertChar(x))
            })
        }),
{
}

/// Behind a prefix the second key makes the command of the chord, and the
/// chord is over; a key that makes none with it does nothing.
pub proof fn a_chord_takes_its_second_key(k: KeyEvent, m: KeymapView, c: ChordState, ctx: KeyContext, prefix: KeyEvent)
    requires
        c.pending == Some(prefix),
        !c.macro_repeat,
        bare_digit(k) is None,
    ensures
        ({
            let (r, c2) = resolve(k, m, c, ctx);
            let there = m.chords.dom().contains(prefix) && m.chords[prefix].dom().contains(k);
            &&& there ==> r == Resolved::Command(m.chords[prefix][k])
            &&& !there ==> r is Continue
            &&& c2.pending is None
            &&& there && m.chords[prefix][k] is KbdMacroExecute ==> c2.count == c.count
            &&& !(there && m.chords[prefix][k] is KbdMacroExecute) ==> c2.count is None
        }),
{
}

/// After a macro was played the key `e` alone plays it again; any other key
/// ends that and is read as ever.
pub proof fn the_repeat_key_plays_again(k: KeyEvent, m: KeymapView, c: ChordState, ctx: KeyContext)
    requires
        c.macro_repeat,
    ensures
        ({
            let (r, c2) = resolve(k, m, c, ctx);
            let again = k.code == KeyCode::Char('e') && !k.modifiers.ctrl && !k.modifiers.alt
                && !k.modifiers.shift;
            &&& again ==> r == Resolved::Command(Command::KbdMacroExecute) && c2 == c
            &&& !again ==> (r, c2) == resolve(
                k,
                m,
                ChordState { macro_repeat: false, ..c },
                ctx,
            ) && !c2.macro_repeat
        }),
{
}

} // verus!
