//! Chats: buffers whose last part is sent off as a turn.

use vstd::prelude::*;

use crate::alerts;
use crate::alerts::AlertState;
use crate::buffers;
use crate::buffers::{BufferEdits, EditsView};
use crate::chars;
use crate::chars::{same_text, substring, trim};
use crate::columns;
use crate::columns::char_to_cursor;
use crate::edit;
use crate::edits;
use crate::edits::{bump, EditedBuffer};
use crate::maps::PathMap;
use crate::paths::CanonPath;
use crate::tabs;
use crate::tabs::{next_tab_id, Tab, Tabs, TabsView};
use crate::text;
use crate::text::{rope_char, rope_clone, rope_insert, rope_len, rope_of, rope_slice};
use crate::truth;

verus! {

// ---------------------------------------------------------------------
// Settings
// ---------------------------------------------------------------------

#[derive(Clone, Copy, Debug, PartialEq, Eq, Structural)]
pub enum Effort {
    Low,
    Medium,
    High,
    XHigh,
}

#[derive(Clone, Copy, Debug, PartialEq, Eq, Structural)]
pub enum PermissionMode {
    Auto,
    AcceptEdits,
    Plan,
    BypassPermissions,
}

/// A letter from A to Z made small.
pub open spec fn ascii_lower(c: char) -> char {
    if 'A' <= c <= 'Z' {
        (c as u32 + 32) as char
    } else {
        c
    }
}

/// The text with the letters A to Z made small.
pub open spec fn lowered(s: Seq<char>) -> Seq<char> {
    Seq::new(s.len(), |i: int| ascii_lower(s[i]))
}

fn lower_ascii(c: char) -> (r: char)
    ensures
        r == ascii_lower(c),
{
    match c {
        'A' => 'a',
        'B' => 'b',
        'C' => 'c',
        'D' => 'd',
        'E' => 'e',
        'F' => 'f',
        'G' => 'g',
        'H' => 'h',
        'I' => 'i',
        'J' => 'j',
        'K' => 'k',
        'L' => 'l',
        'M' => 'm',
        'N' => 'n',
        'O' => 'o',
        'P' => 'p',
        'Q' => 'q',
        'R' => 'r',
        'S' => 's',
        'T' => 't',
        'U' => 'u',
        'V' => 'v',
        'W' => 'w',
        'X' => 'x',
        'Y' => 'y',
        'Z' => 'z',
        _ => c,
    }
}

fn to_lower(s: &str) -> (r: String)
    ensures
        r@ == lowered(s@),
{
    let n: usize = s.unicode_len();
    let mut r = String::new();
    let mut i: usize = 0;
    assert(r@ =~= seq![]);
    while i < n
        invariant
            i <= n,
            n == s@.len(),
            r@.len() == i,
            forall|j: int| 0 <= j < i ==> r@[j] == ascii_lower(#[trigger] s@[j]),
        decreases n - i,
    {
        r.push(lower_ascii(s.get_char(i)));
        i = i + 1;
    }
    assert(r@ =~= lowered(s@));
    r
}

/// The effort that a word names, whatever the case of its letters.
pub open spec fn effort_named(s: Seq<char>) -> Option<Effort> {
    let l = lowered(s);
    if l == "low"@ {
        Some(Effort::Low)
    } else if l == "medium"@ || l == "med"@ {
        Some(Effort::Medium)
    } else if l == "high"@ {
        Some(Effort::High)
    } else if l == "xhigh"@ || l == "max"@ {
        Some(Effort::XHigh)
    } else {
        None
    }
}

pub fn parse_effort(s: &str) -> (r: Option<Effort>)
    ensures
        r == effort_named(s@),
{
    let l = to_lower(s);
    let l = l.as_str();
    if same_text(l, "low") {
        Some(Effort::Low)
    } else if same_text(l, "medium") || same_text(l, "med") {
        Some(Effort::Medium)
    } else if same_text(l, "high") {
        Some(Effort::High)
    } else if same_text(l, "xhigh") || same_text(l, "max") {
        Some(Effort::XHigh)
    } else {
        None
    }
}

/// The permission mode that a word names.
pub open spec fn mode_named(s: Seq<char>) -> Option<PermissionMode> {
    if s == "auto"@ {
        Some(PermissionMode::Auto)
    } else if s == "acceptEdits"@ || s == "accept_edits"@ {
        Some(PermissionMode::AcceptEdits)
    } else if s == "plan"@ {
        Some(PermissionMode::Plan)
    } else if s == "bypassPermissions"@ || s == "bypass"@ {
        Some(PermissionMode::BypassPermissions)
    } else {
        None
    }
}

pub fn parse_permission_mode(s: &str) -> (r: Option<PermissionMode>)
    ensures
        r == mode_named(s@),
{
    if same_text(s, "auto") {
        Some(PermissionMode::Auto)
    } else if same_text(s, "acceptEdits") || same_text(s, "accept_edits") {
        Some(PermissionMode::AcceptEdits)
    } else if same_text(s, "plan") {
        Some(PermissionMode::Plan)
    } else if same_text(s, "bypassPermissions") || same_text(s, "bypass") {
        Some(PermissionMode::BypassPermissions)
    } else {
        None
    }
}

/// How an effort is written.
pub open spec fn flag_of(e: Effort) -> Seq<char> {
    match e {
        Effort::Low => "low"@,
        Effort::Medium => "medium"@,
        Effort::High => "high"@,
        Effort::XHigh => "xhigh"@,
    }
}

fn effort_flag(e: Effort) -> (s: &'static str)
    ensures
        s@ == flag_of(e),
{
    match e {
        Effort::Low => "low",
        Effort::Medium => "medium",
        Effort::High => "high",
        Effort::XHigh => "xhigh",
    }
}

// ---------------------------------------------------------------------
// Session ids
// ---------------------------------------------------------------------

/// The hexadecimal digit for a number below sixteen.
pub open spec fn hex_digit(n: nat) -> char {
    if n < 10 {
        chars::digit(n)
    } else if n == 10 {
        'a'
    } else if n == 11 {
        'b'
    } else if n == 12 {
        'c'
    } else if n == 13 {
        'd'
    } else if n == 14 {
        'e'
    } else {
        'f'
    }
}

/// The last `width` hexadecimal digits of a number.
pub open spec fn hex(n: nat, width: nat) -> Seq<char>
    decreases width,
{
    if width == 0 {
        seq![]
    } else {
        hex(n / 16, (width - 1) as nat).push(hex_digit(n % 16))
    }
}

pub proof fn lemma_hex_len(n: nat, width: nat)
    ensures
        hex(n, width).len() == width,
    decreases width,
{
    if width > 0 {
        lemma_hex_len(n / 16, (width - 1) as nat);
    }
}

fn hex_char(n: u64) -> (c: char)
    requires
        n < 16,
    ensures
        c == hex_digit(n as nat),
{
    match n {
        0 => '0',
        1 => '1',
        2 => '2',
        3 => '3',
        4 => '4',
        5 => '5',
        6 => '6',
        7 => '7',
        8 => '8',
        9 => '9',
        10 => 'a',
        11 => 'b',
        12 => 'c',
        13 => 'd',
        14 => 'e',
        _ => 'f',
    }
}

fn push_hex(s: &mut String, n: u64, width: u64)
    ensures
        final(s)@ == old(s)@ + hex(n as nat, width as nat),
    decreases width,
{
    let ghost s0 = s@;
    if width > 0 {
        push_hex(s, n / 16, width - 1);
        s.push(hex_char(n % 16));
        assert(s@ =~= s0 + hex(n as nat, width as nat));
    } else {
        assert(s0 + hex(n as nat, 0) =~= s0);
    }
}

pub const TWO_64: u128 = 0x1_0000_0000_0000_0000;

/// `n` times `k`, kept to 64 bits.
pub open spec fn mixed(n: nat, k: nat) -> nat {
    (n * k) % (TWO_64 as nat)
}

/// The id of a session that starts at a time given in nanoseconds: a random
/// looking number in the layout of a UUID of version 4.
pub open spec fn session_id(nanos: nat) -> Seq<char> {
    let hi = mixed(nanos, 0xBF58_476D_1CE4_E5B9);
    let lo = mixed(nanos, 0x9E37_79B9_7F4A_7C15);
    hex(hi / 0x1_0000_0000, 8) + seq!['-'] + hex((hi / 0x1_0000) % 0x1_0000, 4) + seq!['-'] + hex(
        hi % 0x1000 + 0x4000,
        4,
    ) + seq!['-'] + hex((lo / 0x1_0000_0000_0000) % 0x4000 + 0x8000, 4) + seq!['-'] + hex(
        lo % 0x1_0000_0000_0000,
        12,
    )
}

fn mix(n: u128, k: u128) -> (r: u64)
    requires
        k < TWO_64,
    ensures
        r == mixed(n as nat, k as nat),
{
    let a: u128 = n % TWO_64;
    assert(a * k < TWO_64 * TWO_64) by (nonlinear_arith)
        requires
            a < TWO_64,
            k < TWO_64,
            TWO_64 == 0x1_0000_0000_0000_0000,
    ;
    proof {
        vstd::arithmetic::div_mod::lemma_mul_mod_noop_left(n as int, k as int, TWO_64 as int);
        assert(0 <= a * k) by (nonlinear_arith)
            requires
                a >= 0,
                k >= 0,
        ;
    }
    let p: u128 = (a * k) % TWO_64;
    p as u64
}

/// Makes the id of a session from the time.
pub fn mint_session_uuid(nanos: u128) -> (s: String)
    ensures
        s@ == session_id(nanos as nat),
{
    let hi: u64 = mix(nanos, 0xBF58_476D_1CE4_E5B9);
    let lo: u64 = mix(nanos, 0x9E37_79B9_7F4A_7C15);
    let mut s = String::new();
    assert(s@ =~= seq![]);
    push_hex(&mut s, hi / 0x1_0000_0000, 8);
    s.push('-');
    push_hex(&mut s, (hi / 0x1_0000) % 0x1_0000, 4);
    s.push('-');
    push_hex(&mut s, hi % 0x1000 + 0x4000, 4);
    s.push('-');
    push_hex(&mut s, (lo / 0x1_0000_0000_0000) % 0x4000 + 0x8000, 4);
    s.push('-');
    push_hex(&mut s, lo % 0x1_0000_0000_0000, 12);
    assert(s@ =~= session_id(nanos as nat));
    s
}

/// Every session id has the layout of a UUID of version 4: its groups have
/// 8, 4, 4, 4 and 12 digits, the third starts with 4 and the fourth with
/// one of 8, 9, a and b.
pub proof fn session_ids_are_uuids(nanos: nat)
    ensures
        ({
            let s = session_id(nanos);
            &&& s.len() == 36
            &&& s[8] == '-' && s[13] == '-' && s[18] == '-' && s[23] == '-'
            &&& s[14] == '4'
            &&& s[19] == '8' || s[19] == '9' || s[19] == 'a' || s[19] == 'b'
        }),
{
    let hi = mixed(nanos, 0xBF58_476D_1CE4_E5B9);
    let lo = mixed(nanos, 0x9E37_79B9_7F4A_7C15);
    let g3 = hi % 0x1000 + 0x4000;
    let g4 = (lo / 0x1_0000_0000_0000) % 0x4000 + 0x8000;
    lemma_hex_len(hi / 0x1_0000_0000, 8);
    lemma_hex_len((hi / 0x1_0000) % 0x1_0000, 4);
    lemma_hex_len(g3, 4);
    lemma_hex_len(g4, 4);
    lemma_hex_len(lo % 0x1_0000_0000_0000, 12);
    reveal_with_fuel(hex, 5);
    assert(hex(g3, 4)[0] == hex_digit(g3 / 16 / 16 / 16 % 16));
    assert(g3 / 16 / 16 / 16 % 16 == 4);
    assert(hex(g4, 4)[0] == hex_digit(g4 / 16 / 16 / 16 % 16));
    assert(8 <= g4 / 16 / 16 / 16 % 16 <= 11);
    let s = session_id(nanos);
    assert(s[14] == hex(g3, 4)[0]);
    assert(s[19] == hex(g4, 4)[0]);
}

// ---------------------------------------------------------------------
// Chats
// ---------------------------------------------------------------------

/// What is known of one chat.
pub struct ChatSession {
    pub session: String,
    /// Where the next turn starts.
    pub submit_offset: usize,
    /// Where the reply goes.
    pub response_anchor: usize,
    /// The turns of the user.
    pub user_ranges: Vec<(usize, usize)>,
}

#[verifier::ext_equal]
pub struct ChatView {
    pub session: Seq<char>,
    pub submit_offset: int,
    pub response_anchor: int,
    pub user_ranges: Seq<(usize, usize)>,
}

impl View for ChatSession {
    type V = ChatView;

    open spec fn view(&self) -> ChatView {
        ChatView {
            session: self.session@,
            submit_offset: self.submit_offset as int,
            response_anchor: self.response_anchor as int,
            user_ranges: self.user_ranges@,
        }
    }
}

/// The chats, by the path of their buffer.
pub type ChatSessions = PathMap<ChatSession>;

pub open spec fn chat_views(m: Map<Seq<char>, ChatSession>) -> Map<Seq<char>, ChatView> {
    Map::new(|k: Seq<char>| m.dom().contains(k), |k: Seq<char>| m[k]@)
}

#[derive(Clone, Copy, Debug, PartialEq, Eq, Structural)]
pub struct SessionOverrides {
    pub effort: Option<Effort>,
    pub permission_mode: Option<PermissionMode>,
}

/// A turn to be sent.
pub struct ChatSend {
    pub session: String,
    pub text: String,
}

pub open spec fn send_views(s: Seq<ChatSend>) -> Seq<(Seq<char>, Seq<char>)> {
    Seq::new(s.len(), |i: int| (s[i].session@, s[i].text@))
}

pub struct ChatPrefs {
    /// What differs from the settings, by session.
    pub overrides: PathMap<SessionOverrides>,
    pub sends: Vec<ChatSend>,
}

impl ChatPrefs {
    pub fn new() -> (p: ChatPrefs)
        ensures
            p.overrides.map() == Map::<Seq<char>, SessionOverrides>::empty(),
            p.sends.len() == 0,
    {
        ChatPrefs { overrides: PathMap::new(), sends: Vec::new() }
    }
}

/// The tabs with a new one at the end, which has the focus.
pub open spec fn tab_added(t: TabsView, path: Seq<char>) -> TabsView {
    let id = tabs::next_id(t);
    TabsView {
        open: t.open.push(tabs::fresh_tab(id, path, false, None)),
        active: Some(id),
        ..t
    }
}

/// The message about a new chat: the start of its id and its effort.
pub open spec fn chat_message(uuid: Seq<char>, effort: Option<Effort>) -> Seq<char> {
    let short = if uuid.len() < 8 {
        uuid
    } else {
        uuid.subrange(0, 8)
    };
    let e = match effort {
        Some(e) => e,
        None => Effort::Medium,
    };
    "New chat #"@ + short + " (effort="@ + flag_of(e) + seq![')']
}

pub open spec fn overridden(
    m: Map<Seq<char>, SessionOverrides>,
    uuid: Seq<char>,
    effort: Option<Effort>,
    permission_mode: Option<PermissionMode>,
) -> Map<Seq<char>, SessionOverrides> {
    if effort is Some || permission_mode is Some {
        m.insert(uuid, SessionOverrides { effort, permission_mode })
    } else {
        m
    }
}

/// Opens a new chat in a tab of its own, on an empty buffer.
pub fn new_chat(
    tabs: &mut Tabs,
    edits: &mut BufferEdits,
    sessions: &mut ChatSessions,
    prefs: &mut ChatPrefs,
    alerts: &mut AlertState,
    uuid: &str,
    path: &CanonPath,
    effort: Option<Effort>,
    permission_mode: Option<PermissionMode>,
    now: u64,
)
    ensures
        final(tabs)@ == tab_added(old(tabs)@, path@),
        final(edits)@ == old(edits)@.with_buffer(
            path@,
            edits::fresh_buffer(seq![]),
            old(edits)@.clock,
        ),
        chat_views(final(sessions).map()) == chat_views(old(sessions).map()).insert(
            path@,
            (ChatView {
                session: uuid@,
                submit_offset: 0,
                response_anchor: 0,
                user_ranges: seq![],
            }),
        ),
        final(prefs).overrides.map() == overridden(
            old(prefs).overrides.map(),
            uuid@,
            effort,
            permission_mode,
        ),
        final(prefs).sends == old(prefs).sends,
        final(alerts)@ == alerts::informed(old(alerts)@, chat_message(uuid@, effort), now),
        truth::all_truthful(old(edits)@) ==> truth::all_truthful(final(edits)@),
{
    proof {
        if truth::all_truthful(edits@) {
            truth::fresh_histories_are_true(seq![]);
            truth::lemma_put(edits@, path@, edits::fresh_buffer(seq![]), edits@.clock);
        }
    }
    if effort.is_some() || permission_mode.is_some() {
        prefs.overrides.insert(uuid.to_owned(), SessionOverrides { effort, permission_mode });
    }
    proof {
        reveal_strlit("");
        assert(""@ =~= seq![]);
    }
    edits.put(path.text.clone(), EditedBuffer::fresh(rope_of("")));
    sessions.insert(
        path.text.clone(),
        ChatSession {
            session: uuid.to_owned(),
            submit_offset: 0,
            response_anchor: 0,
            user_ranges: Vec::new(),
        },
    );
    assert(chat_views(sessions.map()) =~= chat_views(old(sessions).map()).insert(
        path@,
        (ChatView {
            session: uuid@,
            submit_offset: 0,
            response_anchor: 0,
            user_ranges: seq![],
        }),
    ));
    let id = next_tab_id(tabs);
    tabs.push(Tab::fresh(id, path, false, None));
    tabs.active = Some(id);
    let n: usize = uuid.unicode_len();
    let short = substring(
        uuid,
        0,
        if n < 8 {
            n
        } else {
            8
        },
    );
    assert(short@ =~= if uuid@.len() < 8 {
        uuid@
    } else {
        uuid@.subrange(0, 8)
    });
    let mut msg = "New chat #".to_owned();
    msg.push_str(short.as_str());
    msg.push_str(" (effort=");
    msg.push_str(
        effort_flag(
            match effort {
                Some(e) => e,
                None => Effort::Medium,
            },
        ),
    );
    msg.push(')');
    assert(msg@ =~= chat_message(uuid@, effort));
    alerts.set_info(msg, now);
}

// ---------------------------------------------------------------------
// Sending
// ---------------------------------------------------------------------

/// How many line feeds end the first `n` characters.
pub open spec fn trailing_newlines(t: Seq<char>, n: int) -> int
    decreases n,
{
    if 0 < n <= t.len() && t[n - 1] == '\n' {
        1 + trailing_newlines(t, n - 1)
    } else {
        0
    }
}

pub fn count_trailing_newlines(rope: &ropey::Rope, end: usize) -> (r: usize)
    requires
        end <= text::rope_text(*rope).len(),
    ensures
        r == trailing_newlines(text::rope_text(*rope), end as int),
        r <= end,
{
    let ghost t = text::rope_text(*rope);
    let mut n: usize = 0;
    let mut i: usize = end;
    while i > 0 && rope_char(rope, i - 1) == '\n'
        invariant
            i <= end,
            n + i == end,
            t == text::rope_text(*rope),
            end <= t.len(),
            trailing_newlines(t, end as int) == n + trailing_newlines(t, i as int),
        decreases i,
    {
        n = n + 1;
        i = i - 1;
    }
    n
}

/// What is put behind a text so that the reply gets lines of its own: the
/// end of the last line and a blank one. A text that ends in line feeds is
/// left as it is.
pub open spec fn padding(t: Seq<char>) -> Seq<char> {
    if trailing_newlines(t, t.len() as int) == 0 {
        seq!['\n', '\n']
    } else {
        seq![]
    }
}

/// The turn that waits to be sent: what stands behind the offset, unless
/// that is blank.
pub open spec fn waiting_turn(t: Seq<char>, c: ChatView) -> Option<Seq<char>> {
    if c.submit_offset >= t.len() {
        None
    } else {
        let s = t.subrange(c.submit_offset, t.len() as int);
        if chars::trimmed(s).len() == 0 {
            None
        } else {
            Some(s)
        }
    }
}

/// The state after the active chat sent its turn.
pub open spec fn submitted(
    t: TabsView,
    e: EditsView,
    s: Map<Seq<char>, ChatView>,
    sends: Seq<(Seq<char>, Seq<char>)>,
) -> (TabsView, EditsView, Map<Seq<char>, ChatView>, Seq<(Seq<char>, Seq<char>)>) {
    match buffers::active_loaded(t, e) {
        None => (t, e, s, sends),
        Some(i) => {
            let path = t.open[i].path;
            if !s.dom().contains(path) {
                (t, e, s, sends)
            } else {
                let b = e.buffers[path];
                let c = s[path];
                match waiting_turn(b.text, c) {
                    None => (t, e, s, sends),
                    Some(turn) => {
                        let new_text = b.text + padding(b.text);
                        let end = new_text.len() as int;
                        (
                            t.with_tab(
                                i,
                                edit::at_cursor(
                                    t.open[i],
                                    columns::index_cursor(new_text, end),
                                ),
                            ),
                            if padding(b.text).len() > 0 {
                                e.with_buffer(path, edits::retexted(b, new_text), e.clock)
                            } else {
                                e
                            },
                            s.insert(
                                path,
                                ChatView {
                                    submit_offset: end,
                                    response_anchor: end,
                                    user_ranges: c.user_ranges.push(
                                        (c.submit_offset as usize, b.text.len() as usize),
                                    ),
                                    ..c
                                },
                            ),
                            sends.push((c.session, turn)),
                        )
                    },
                }
            }
        },
    }
}

fn set_session(sessions: &mut ChatSessions, path: &str, c: ChatSession)
    ensures
        chat_views(final(sessions).map()) == chat_views(old(sessions).map()).insert(path@, c@),
{
    sessions.insert(path.to_owned(), c);
    assert(chat_views(sessions.map()) =~= chat_views(old(sessions).map()).insert(path@, c@));
}

/// Sends what stands behind the last turn of the active chat, and makes
/// room for the reply behind it.
pub fn submit(
    tabs: &mut Tabs,
    edits: &mut BufferEdits,
    sessions: &mut ChatSessions,
    prefs: &mut ChatPrefs,
)
    ensures
        (
            final(tabs)@,
            final(edits)@,
            chat_views(final(sessions).map()),
            send_views(final(prefs).sends@),
        ) == submitted(
            old(tabs)@,
            old(edits)@,
            chat_views(old(sessions).map()),
            send_views(old(prefs).sends@),
        ),
        final(prefs).overrides == old(prefs).overrides,
        truth::all_truthful(old(edits)@) && pads_no_history(old(tabs)@, old(edits)@)
            ==> truth::all_truthful(final(edits)@),
{
    let ghost e0 = edits@;
    let ghost m0 = chat_views(sessions.map());
    proof {
        if truth::all_truthful(e0) && pads_no_history(tabs@, e0) {
            sending_keeps_truth(tabs@, e0, m0, send_views(prefs.sends@));
        }
    }
    let i: usize = match tabs.active_index() {
        Some(i) => i,
        None => {
            return;
        },
    };
    let mut tab = tabs.at(i).copy();
    let path = tab.path.text.clone();
    if !edits.has(path.as_str()) {
        return;
    }
    let taken = sessions.remove(path.as_str());
    let mut c = match taken {
        Some(c) => c,
        None => {
            assert(chat_views(sessions.map()) =~= m0);
            return;
        },
    };
    let ghost c0 = c@;
    assert(chat_views(sessions.map()) =~= m0.remove(path@));
    assert(m0.remove(path@).insert(path@, c0) =~= m0);
    let taken = edits.take(path.as_str());
    let mut eb = match taken {
        Some(eb) => eb,
        None => {
            return;
        },
    };
    let ghost b0 = eb@;
    let n: usize = rope_len(&eb.rope);
    let from: usize = if c.submit_offset < n {
        c.submit_offset
    } else {
        n
    };
    let turn = rope_slice(&eb.rope, from, n);
    let blank: bool = from == n || {
        let t = trim(turn.as_str());
        t.as_str().unicode_len() == 0
    };
    if blank {
        set_session(sessions, path.as_str(), c);
        edits.put(path, eb);
        proof {
            buffers::lemma_take_put(e0, path@, b0, e0.clock);
            assert(chat_views(sessions.map()) =~= m0);
        }
        return;
    }
    let k: usize = count_trailing_newlines(&eb.rope, n);
    let mut rope = rope_clone(&eb.rope);
    if k == 0 {
        let mut pad = String::new();
        pad.push('\n');
        pad.push('\n');
        assert(pad@ =~= padding(b0.text));
        rope_insert(&mut rope, n, pad.as_str());
        assert(text::inserted(b0.text, n as int, pad@) =~= b0.text + pad@);
    } else {
        assert(b0.text + padding(b0.text) =~= b0.text);
    }
    let end: usize = rope_len(&rope);
    tab.cursor = char_to_cursor(end, &rope);
    if k == 0 {
        bump(&mut eb, rope);
    }
    c.user_ranges.push((c.submit_offset, n));
    c.submit_offset = end;
    c.response_anchor = end;
    let session = c.session.clone();
    let ghost s0 = send_views(prefs.sends@);
    prefs.sends.push(ChatSend { session, text: turn });
    assert(send_views(prefs.sends@) =~= s0.push((c0.session, turn@)));
    let ghost b1 = eb@;
    edits.put(path.clone(), eb);
    tabs.set(i, tab);
    set_session(sessions, path.as_str(), c);
    proof {
        buffers::lemma_take_put(e0, path@, b1, e0.clock);
        assert(chat_views(sessions.map()) =~= m0.insert(path@, c@));
    }
}

/// A turn of the active tab would be sent without padding, or from a buffer
/// that has no history.
pub open spec fn pads_no_history(t: TabsView, e: EditsView) -> bool {
    match buffers::active_loaded(t, e) {
        None => true,
        Some(i) => {
            let b = e.buffers[t.open[i].path];
            padding(b.text).len() == 0 || truth::blank(b.history)
        },
    }
}

/// Sending keeps histories true, unless it pads a chat that has a history:
/// the padding is not recorded.
pub proof fn sending_keeps_truth(
    t: TabsView,
    e: EditsView,
    s: Map<Seq<char>, ChatView>,
    sends: Seq<(Seq<char>, Seq<char>)>,
)
    requires
        truth::all_truthful(e),
        pads_no_history(t, e),
    ensures
        truth::all_truthful(submitted(t, e, s, sends).1),
{
    if let Some(i) = buffers::active_loaded(t, e) {
        let path = t.open[i].path;
        let b = e.buffers[path];
        if padding(b.text).len() > 0 {
            let r = edits::retexted(b, b.text + padding(b.text));
            truth::blank_histories_are_true(b.history, r.text);
            truth::lemma_put(e, path, r, e.clock);
        }
    }
}

/// A turn that was sent is not sent again: right behind it nothing waits.
pub proof fn sending_twice_sends_once(
    t: TabsView,
    e: EditsView,
    s: Map<Seq<char>, ChatView>,
    sends: Seq<(Seq<char>, Seq<char>)>,
)
    ensures
        ({
            let (t2, e2, s2, sends2) = submitted(t, e, s, sends);
            submitted(t2, e2, s2, sends2).3 == sends2
        }),
{
    let (t2, e2, s2, sends2) = submitted(t, e, s, sends);
    if let Some(i) = buffers::active_loaded(t, e) {
        let path = t.open[i].path;
        if s.dom().contains(path) {
            crate::seqs::lemma_first_from(t.open, crate::tabs::by_id(t.active->0), 0);
            if waiting_turn(e.buffers[path].text, s[path]) is Some {
                let b = e.buffers[path];
                assert(padding(b.text).len() == 0 ==> b.text + padding(b.text) =~= b.text);
                let p = crate::tabs::by_id(t.active->0);
                assert forall|j: int| 0 <= j < i implies !p(#[trigger] t2.open[j]) by {
                    assert(!p(t.open[j]));
                }
                assert(p(t2.open[i]));
                crate::seqs::lemma_first_is(t2.open, p, 0, i);
                assert(t2.open[i].path == path);
                assert(e2.buffers[path].text == b.text + padding(b.text));
            }
        }
    }
}

// ---------------------------------------------------------------------
// Laws
// ---------------------------------------------------------------------

/// What stands behind the last turn is sent, as it stands, unless it is
/// blank; the text then ends in a line feed, the cursor stands at its end,
/// and the next turn starts there.
pub proof fn the_waiting_turn_is_sent(
    t: TabsView,
    e: EditsView,
    s: Map<Seq<char>, ChatView>,
    sends: Seq<(Seq<char>, Seq<char>)>,
    i: int,
)
    requires
        buffers::active_loaded(t, e) == Some(i),
        s.dom().contains(t.open[i].path),
        s[t.open[i].path].submit_offset >= 0,
    ensures
        ({
            let (t2, e2, s2, sends2) = submitted(t, e, s, sends);
            let path = t.open[i].path;
            let c = s[path];
            let old_text = e.buffers[path].text;
            let n = old_text.len() as int;
            let new_text = e2.buffers[path].text;
            let due = exists|k: int|
                c.submit_offset <= k < n && !chars::whitespace(#[trigger] old_text[k]);
            &&& !due ==> t2 == t && e2 == e && s2 == s && sends2 == sends
            &&& due ==> {
                &&& sends2.len() == sends.len() + 1
                &&& sends2.drop_last() =~= sends
                &&& sends2.last() == (c.session, old_text.subrange(c.submit_offset, n))
                &&& old_text.last() == '\n' ==> new_text == old_text
                &&& old_text.last() != '\n' ==> new_text == old_text + seq!['\n', '\n']
                &&& s2[path].submit_offset == new_text.len()
                &&& s2[path].response_anchor == new_text.len()
                &&& s2[path].session == c.session
                &&& t2.open[i].cursor == columns::index_cursor(new_text, new_text.len() as int)
                &&& tabs::others_kept(t, t2, i)
                &&& forall|p: Seq<char>|
                    p != path ==> #[trigger] e2.buffers[p] == e.buffers[p] && s2[p] == s[p]
            }
        }),
{
    let path = t.open[i].path;
    let c = s[path];
    let x = e.buffers[path].text;
    let n = x.len() as int;
    crate::seqs::lemma_first_from(t.open, tabs::by_id(t.active->0), 0);
    if c.submit_offset < n {
        let w = x.subrange(c.submit_offset, n);
        chars::only_blank_texts_vanish(w);
        if exists|k: int| c.submit_offset <= k < n && !chars::whitespace(#[trigger] x[k]) {
            let k = choose|k: int|
                c.submit_offset <= k < n && !chars::whitespace(#[trigger] x[k]);
            assert(w[k - c.submit_offset] == x[k]);
            assert(!chars::whitespace(w[k - c.submit_offset]));
        } else {
            assert forall|k: int| 0 <= k < w.len() implies chars::whitespace(#[trigger] w[k]) by {
                assert(w[k] == x[k + c.submit_offset]);
            }
        }
        assert(padding(x).len() == 0 ==> x + padding(x) =~= x);
        lemma_trailing(x, n);
    }
}

proof fn lemma_trailing(t: Seq<char>, n: int)
    requires
        0 <= n <= t.len(),
    ensures
        trailing_newlines(t, n) >= 0,
        trailing_newlines(t, n) > 0 <==> n > 0 && t[n - 1] == '\n',
    decreases n,
{
    if n > 0 {
        lemma_trailing(t, n - 1);
    }
}

/// An effort is read back from how it is written, in small letters or
/// capitals.
pub proof fn efforts_read_back(e: Effort, s: Seq<char>)
    requires
        s.len() == flag_of(e).len(),
        forall|i: int|
            0 <= i < s.len() ==> s[i] == flag_of(e)[i] || ('A' <= #[trigger] s[i] <= 'Z' && s[i]
                as u32 + 32 == flag_of(e)[i] as u32),
    ensures
        effort_named(s) == Some(e),
{
    reveal_strlit("low");
    reveal_strlit("medium");
    reveal_strlit("med");
    reveal_strlit("high");
    reveal_strlit("xhigh");
    reveal_strlit("max");
    assert(lowered(s) =~= flag_of(e));
    assert("low"@[0] == 'l');
    assert("high"@[0] == 'h');
    assert("medium"@.len() == 6);
    assert("xhigh"@.len() == 5);
}

/// A new chat gets a lasting tab of its own at the end, which has the focus.
pub proof fn a_new_chat_gets_a_tab(t: TabsView, path: Seq<char>)
    ensures
        ({
            let t2 = tab_added(t, path);
            let n = t.open.len() as int;
            &&& t2.open.len() == n + 1
            &&& t2.open.subrange(0, n) =~= t.open
            &&& t2.open[n].path == path
            &&& !t2.open[n].preview
            &&& t2.active == Some(t2.open[n].id)
            &&& t2.open[n].cursor == (columns::Cursor { line: 0, col: 0, preferred_col: 0 })
        }),
{
}

/// What was asked of a new chat is kept under its id, and nothing if nothing
/// was asked.
pub proof fn wishes_for_a_chat_are_kept(
    m: Map<Seq<char>, SessionOverrides>,
    uuid: Seq<char>,
    effort: Option<Effort>,
    mode: Option<PermissionMode>,
)
    ensures
        effort is None && mode is None ==> overridden(m, uuid, effort, mode) == m,
        effort is Some || mode is Some ==> ({
            let r = overridden(m, uuid, effort, mode);
            &&& r.dom().contains(uuid)
            &&& r[uuid].effort == effort
            &&& r[uuid].permission_mode == mode
            &&& forall|x: Seq<char>|
                x != uuid ==> #[trigger] r[x] == m[x] && r.dom().contains(x) == m.dom().contains(x)
        }),
{
}

} // verus!
