//! Key events and how they are written in a configuration.

use vstd::prelude::*;

use crate::chars::same_text;

verus! {

#[derive(Clone, Copy, Debug, PartialEq, Eq, Structural)]
pub enum KeyCode {
    Char(char),
    Enter,
    Tab,
    BackTab,
    Backspace,
    Delete,
    Insert,
    Left,
    Right,
    Up,
    Down,
    Home,
    End,
    PageUp,
    PageDown,
    Esc,
}

#[derive(Clone, Copy, Debug, PartialEq, Eq, Structural)]
pub struct KeyModifiers {
    pub ctrl: bool,
    pub alt: bool,
    pub shift: bool,
}

#[derive(Clone, Copy, Debug, PartialEq, Eq, Structural)]
pub struct KeyEvent {
    pub modifiers: KeyModifiers,
    pub code: KeyCode,
}

/// No modifier is held.
pub open spec fn bare(m: KeyModifiers) -> bool {
    !m.ctrl && !m.alt && !m.shift
}

impl KeyModifiers {
    pub fn none() -> (m: KeyModifiers)
        ensures
            m == (KeyModifiers { ctrl: false, alt: false, shift: false }),
    {
        KeyModifiers { ctrl: false, alt: false, shift: false }
    }

    pub fn control() -> (m: KeyModifiers)
        ensures
            m == (KeyModifiers { ctrl: true, alt: false, shift: false }),
    {
        KeyModifiers { ctrl: true, alt: false, shift: false }
    }

    pub fn alt() -> (m: KeyModifiers)
        ensures
            m == (KeyModifiers { ctrl: false, alt: true, shift: false }),
    {
        KeyModifiers { ctrl: false, alt: true, shift: false }
    }

    pub fn shift() -> (m: KeyModifiers)
        ensures
            m == (KeyModifiers { ctrl: false, alt: false, shift: true }),
    {
        KeyModifiers { ctrl: false, alt: false, shift: true }
    }

    pub fn is_empty(&self) -> (r: bool)
        ensures
            r == bare(*self),
    {
        !self.ctrl && !self.alt && !self.shift
    }
}

impl KeyEvent {
    pub fn new(modifiers: KeyModifiers, code: KeyCode) -> (k: KeyEvent)
        ensures
            k == (KeyEvent { modifiers, code }),
    {
        KeyEvent { modifiers, code }
    }
}

/// The key with a given name.
pub open spec fn named_key(s: Seq<char>) -> Option<KeyCode> {
    if s == "up"@ {
        Some(KeyCode::Up)
    } else if s == "down"@ {
        Some(KeyCode::Down)
    } else if s == "left"@ {
        Some(KeyCode::Left)
    } else if s == "right"@ {
        Some(KeyCode::Right)
    } else if s == "home"@ {
        Some(KeyCode::Home)
    } else if s == "end"@ {
        Some(KeyCode::End)
    } else if s == "page_up"@ {
        Some(KeyCode::PageUp)
    } else if s == "page_down"@ {
        Some(KeyCode::PageDown)
    } else if s == "tab"@ {
        Some(KeyCode::Tab)
    } else if s == "backtab"@ {
        Some(KeyCode::BackTab)
    } else if s == "enter"@ {
        Some(KeyCode::Enter)
    } else if s == "esc"@ {
        Some(KeyCode::Esc)
    } else if s == "backspace"@ {
        Some(KeyCode::Backspace)
    } else if s == "delete"@ {
        Some(KeyCode::Delete)
    } else if s == "insert"@ {
        Some(KeyCode::Insert)
    } else if s == "space"@ {
        Some(KeyCode::Char(' '))
    } else if s.len() == 1 {
        Some(KeyCode::Char(s[0]))
    } else {
        None
    }
}

/// `s` starts with `p` and goes on after it.
pub open spec fn leads(s: Seq<char>, p: Seq<char>) -> bool {
    p.len() < s.len() && s.subrange(0, p.len() as int) == p
}

/// The key that a string stands for: modifiers, each followed by `+`, and
/// then the name of a key or a single character.
pub open spec fn key_of(s: Seq<char>, m: KeyModifiers) -> Option<KeyEvent>
    decreases s.len(),
{
    if leads(s, "ctrl+"@) && "ctrl+"@.len() > 0 {
        key_of(s.skip("ctrl+"@.len() as int), KeyModifiers { ctrl: true, ..m })
    } else if leads(s, "alt+"@) && "alt+"@.len() > 0 {
        key_of(s.skip("alt+"@.len() as int), KeyModifiers { alt: true, ..m })
    } else if leads(s, "shift+"@) && "shift+"@.len() > 0 {
        key_of(s.skip("shift+"@.len() as int), KeyModifiers { shift: true, ..m })
    } else {
        match named_key(s) {
            Some(code) => Some(KeyEvent { modifiers: m, code }),
            None => None,
        }
    }
}

fn key_by_name(s: &str) -> (r: Option<KeyCode>)
    ensures
        r == named_key(s@),
{
    if same_text(s, "up") {
        Some(KeyCode::Up)
    } else if same_text(s, "down") {
        Some(KeyCode::Down)
    } else if same_text(s, "left") {
        Some(KeyCode::Left)
    } else if same_text(s, "right") {
        Some(KeyCode::Right)
    } else if same_text(s, "home") {
        Some(KeyCode::Home)
    } else if same_text(s, "end") {
        Some(KeyCode::End)
    } else if same_text(s, "page_up") {
        Some(KeyCode::PageUp)
    } else if same_text(s, "page_down") {
        Some(KeyCode::PageDown)
    } else if same_text(s, "tab") {
        Some(KeyCode::Tab)
    } else if same_text(s, "backtab") {
        Some(KeyCode::BackTab)
    } else if same_text(s, "enter") {
        Some(KeyCode::Enter)
    } else if same_text(s, "esc") {
        Some(KeyCode::Esc)
    } else if same_text(s, "backspace") {
        Some(KeyCode::Backspace)
    } else if same_text(s, "delete") {
        Some(KeyCode::Delete)
    } else if same_text(s, "insert") {
        Some(KeyCode::Insert)
    } else if same_text(s, "space") {
        Some(KeyCode::Char(' '))
    } else if s.unicode_len() == 1 {
        Some(KeyCode::Char(s.get_char(0)))
    } else {
        None
    }
}

/// The rest of `s` behind `p`, if `s` starts with it and goes on.
fn rest_after<'a>(s: &'a str, p: &str) -> (r: Option<&'a str>)
    ensures
        r is Some <==> leads(s@, p@),
        r is Some ==> r->0@ == s@.skip(p@.len() as int),
{
    let n: usize = s.unicode_len();
    let k: usize = p.unicode_len();
    if k < n && same_text(s.substring_char(0, k), p) {
        let rest = s.substring_char(k, n);
        assert(rest@ =~= s@.skip(k as int));
        Some(rest)
    } else {
        None
    }
}

fn parse_from(s: &str, m: KeyModifiers) -> (r: Option<KeyEvent>)
    ensures
        r == key_of(s@, m),
    decreases s@.len(),
{
    proof {
        reveal_strlit("ctrl+");
        reveal_strlit("alt+");
        reveal_strlit("shift+");
    }
    if let Some(rest) = rest_after(s, "ctrl+") {
        return parse_from(rest, KeyModifiers { ctrl: true, alt: m.alt, shift: m.shift });
    }
    if let Some(rest) = rest_after(s, "alt+") {
        return parse_from(rest, KeyModifiers { ctrl: m.ctrl, alt: true, shift: m.shift });
    }
    if let Some(rest) = rest_after(s, "shift+") {
        return parse_from(rest, KeyModifiers { ctrl: m.ctrl, alt: m.alt, shift: true });
    }
    match key_by_name(s) {
        Some(code) => Some(KeyEvent { modifiers: m, code }),
        None => None,
    }
}

/// What is said of a string that names no key.
pub open spec fn unknown_key(s: Seq<char>) -> Seq<char> {
    "unknown key `"@ + s + "`"@
}

/// The key that a string stands for.
pub open spec fn parsed_key(s: Seq<char>) -> Option<KeyEvent> {
    key_of(s, KeyModifiers { ctrl: false, alt: false, shift: false })
}

/// Reads a key such as `ctrl+x`, `alt+enter` or `f`.
pub fn parse_key(s: &str) -> (r: Result<KeyEvent, String>)
    ensures
        match r {
            Ok(k) => parsed_key(s@) == Some(k),
            Err(e) => parsed_key(s@) is None && e@ == unknown_key(s@),
        },
{
    match parse_from(s, KeyModifiers::none()) {
        Some(k) => Ok(k),
        None => {
            let mut e = "unknown key `".to_owned();
            e.push_str(s);
            e.push_str("`");
            Err(e)
        },
    }
}

// ---------------------------------------------------------------------
// Laws
// ---------------------------------------------------------------------

/// A key is read with the modifiers that stand before it, in any order; a
/// single character stands for itself.
pub proof fn modifiers_stand_before_a_key(s: Seq<char>, m: KeyModifiers, c: char)
    requires
        s.len() > 0,
    ensures
        key_of("ctrl+"@ + s, m) == key_of(s, KeyModifiers { ctrl: true, ..m }),
        key_of("alt+"@ + s, m) == key_of(s, KeyModifiers { alt: true, ..m }),
        key_of("shift+"@ + s, m) == key_of(s, KeyModifiers { shift: true, ..m }),
        key_of(seq![c], m) == Some(KeyEvent { modifiers: m, code: KeyCode::Char(c) }),
        parsed_key(seq![c]) == Some(
            KeyEvent {
                modifiers: KeyModifiers { ctrl: false, alt: false, shift: false },
                code: KeyCode::Char(c),
            },
        ),
{
    reveal_strlit("ctrl+");
    reveal_strlit("alt+");
    reveal_strlit("shift+");
    let a = "ctrl+"@ + s;
    let b = "alt+"@ + s;
    let d = "shift+"@ + s;
    assert(a.subrange(0, 5) =~= "ctrl+"@);
    assert(a.skip(5) =~= s);
    assert(b.subrange(0, 4) =~= "alt+"@);
    assert(b.skip(4) =~= s);
    assert(d.subrange(0, 6) =~= "shift+"@);
    assert(d.skip(6) =~= s);
    assert("ctrl+"@[0] == 'c');
    assert(b[0] == 'a');
    assert(d[0] == 's');
    if leads(b, "ctrl+"@) {
        assert(b.subrange(0, 5)[0] == b[0]);
    }
    if leads(d, "ctrl+"@) {
        assert(d.subrange(0, 5)[0] == d[0]);
    }
    assert("alt+"@[0] == 'a');
    if leads(d, "alt+"@) {
        assert(d.subrange(0, 4)[0] == d[0]);
    }
    lemma_single(c);
}

proof fn lemma_single(c: char)
    ensures
        named_key(seq![c]) == Some(KeyCode::Char(c)),
{
    reveal_strlit("up");
    reveal_strlit("down");
    reveal_strlit("left");
    reveal_strlit("right");
    reveal_strlit("home");
    reveal_strlit("end");
    reveal_strlit("page_up");
    reveal_strlit("page_down");
    reveal_strlit("tab");
    reveal_strlit("backtab");
    reveal_strlit("enter");
    reveal_strlit("esc");
    reveal_strlit("backspace");
    reveal_strlit("delete");
    reveal_strlit("insert");
    reveal_strlit("space");
    let s = seq![c];
    assert(s.len() == 1);
}

} // verus!
