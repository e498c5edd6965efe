//! Matching brackets and the jump list.

use vstd::prelude::*;

use crate::buffers;
use crate::buffers::{BufferEdits, EditsView};
use crate::columns;
use crate::columns::{char_to_cursor, cursor_to_char, line_grapheme_len, Cursor};
use crate::edit;
use crate::jumps;
use crate::jumps::{current_position, JumpListState, JumpPosition, JumpView, JumpsView};
use crate::tabs::{Tabs, TabsView};
use crate::text;
use crate::text::{rope_char, rope_len, rope_len_lines};

verus! {

// ---------------------------------------------------------------------
// Brackets
// ---------------------------------------------------------------------

/// The pair that a bracket belongs to, and whether it is the opening one.
pub open spec fn bracket(c: char) -> Option<(char, char, bool)> {
    if c == '(' {
        Some(('(', ')', true))
    } else if c == ')' {
        Some(('(', ')', false))
    } else if c == '[' {
        Some(('[', ']', true))
    } else if c == ']' {
        Some(('[', ']', false))
    } else if c == '{' {
        Some(('{', '}', true))
    } else if c == '}' {
        Some(('{', '}', false))
    } else {
        None
    }
}

/// How one character changes the depth.
pub open spec fn weight(x: char, open: char, close: char) -> int {
    if x == open {
        1
    } else if x == close {
        -1
    } else {
        0
    }
}

/// Opening less closing brackets from `a` up to `b`.
pub open spec fn balance(t: Seq<char>, open: char, close: char, a: int, b: int) -> int
    decreases b - a,
{
    if b <= a || b > t.len() || a < 0 {
        0
    } else {
        balance(t, open, close, a, b - 1) + weight(t[b - 1], open, close)
    }
}

/// The first position from `i` on where the depth, which is `depth` before
/// it, comes down to zero.
pub open spec fn close_from(t: Seq<char>, open: char, close: char, i: int, depth: int) -> Option<int>
    decreases t.len() - i,
{
    if i < 0 || i >= t.len() {
        None
    } else {
        let d = depth + weight(t[i], open, close);
        if d == 0 && t[i] == close {
            Some(i)
        } else {
            close_from(t, open, close, i + 1, d)
        }
    }
}

/// The last position before `i` where the depth, counted backward, comes
/// down to zero.
pub open spec fn open_before(t: Seq<char>, open: char, close: char, i: int, depth: int) -> Option<int>
    decreases i,
{
    if i <= 0 || i > t.len() {
        None
    } else {
        let d = depth - weight(t[i - 1], open, close);
        if d == 0 && t[i - 1] == open {
            Some(i - 1)
        } else {
            open_before(t, open, close, i - 1, d)
        }
    }
}

/// The bracket that belongs to the one at `at`.
pub open spec fn matching(t: Seq<char>, at: int) -> Option<int> {
    if 0 <= at < t.len() {
        match bracket(t[at]) {
            None => None,
            Some((open, close, forward)) => if forward {
                close_from(t, open, close, at + 1, 1)
            } else {
                open_before(t, open, close, at, 1)
            },
        }
    } else {
        None
    }
}

/// The bracket at `i` closes the one at `at`: between them the depth never
/// comes down, and it does at `i`.
pub open spec fn closes(t: Seq<char>, open: char, close: char, at: int, i: int) -> bool {
    &&& 0 <= at < i < t.len()
    &&& t[at] == open
    &&& t[i] == close
    &&& balance(t, open, close, at, i + 1) == 0
    &&& forall|j: int| at < j <= i ==> #[trigger] balance(t, open, close, at, j) > 0
}

proof fn lemma_close_from(t: Seq<char>, open: char, close: char, at: int, i: int, depth: int)
    requires
        open != close,
        0 <= at < i <= t.len(),
        t[at] == open,
        depth == balance(t, open, close, at, i),
        forall|j: int| at < j <= i ==> #[trigger] balance(t, open, close, at, j) > 0,
    ensures
        match close_from(t, open, close, i, depth) {
            Some(k) => closes(t, open, close, at, k),
            None => forall|k: int| !closes(t, open, close, at, k),
        },
    decreases t.len() - i,
{
    if i < t.len() {
        let d = depth + weight(t[i], open, close);
        assert(d == balance(t, open, close, at, i + 1));
        assert(balance(t, open, close, at, i) > 0);
        if d == 0 && t[i] == close {
        } else {
            assert(d > 0);
            lemma_close_from(t, open, close, at, i + 1, d);
        }
    } else {
        assert forall|k: int| !closes(t, open, close, at, k) by {
            if closes(t, open, close, at, k) {
                assert(balance(t, open, close, at, k + 1) > 0);
            }
        }
    }
}

proof fn lemma_balance_split(t: Seq<char>, open: char, close: char, a: int, m: int, b: int)
    requires
        0 <= a <= m <= b <= t.len(),
    ensures
        balance(t, open, close, a, b) == balance(t, open, close, a, m) + balance(
            t,
            open,
            close,
            m,
            b,
        ),
    decreases b - m,
{
    if m < b {
        lemma_balance_split(t, open, close, a, m, b - 1);
    }
}

proof fn lemma_open_before(t: Seq<char>, open: char, close: char, at: int, i: int, depth: int)
    requires
        open != close,
        0 <= i <= at < t.len(),
        t[at] == close,
        depth == -balance(t, open, close, i, at + 1),
        forall|j: int| i <= j <= at ==> #[trigger] balance(t, open, close, j, at + 1) < 0,
    ensures
        match open_before(t, open, close, i, depth) {
            Some(k) => closes(t, open, close, k, at),
            None => forall|k: int| !closes(t, open, close, k, at),
        },
    decreases i,
{
    if i > 0 {
        let d = depth - weight(t[i - 1], open, close);
        lemma_balance_split(t, open, close, i - 1, i, at + 1);
        assert(balance(t, open, close, i - 1, i) == weight(t[i - 1], open, close)) by {
            reveal_with_fuel(balance, 2);
        }
        assert(d == -balance(t, open, close, i - 1, at + 1));
        assert(balance(t, open, close, i, at + 1) < 0);
        if d == 0 && t[i - 1] == open {
            let k = i - 1;
            assert forall|j: int| k < j <= at implies #[trigger] balance(t, open, close, k, j) > 0 by {
                lemma_balance_split(t, open, close, k, j, at + 1);
                assert(balance(t, open, close, j, at + 1) < 0);
            }
        } else {
            assert(d > 0);
            lemma_open_before(t, open, close, at, i - 1, d);
        }
    } else {
        assert forall|k: int| !closes(t, open, close, k, at) by {
            if closes(t, open, close, k, at) {
                assert(balance(t, open, close, k, at + 1) < 0);
            }
        }
    }
}

/// The match of an opening bracket is the bracket that closes it, and that
/// of a closing bracket the one that it closes. A bracket without a match
/// has none.
pub proof fn matching_is_balanced(t: Seq<char>, at: int)
    requires
        0 <= at < t.len(),
        bracket(t[at]) is Some,
    ensures
        ({
            let (open, close, forward) = bracket(t[at])->0;
            match matching(t, at) {
                Some(k) => if forward {
                    closes(t, open, close, at, k)
                } else {
                    closes(t, open, close, k, at)
                },
                None => if forward {
                    forall|k: int| !closes(t, open, close, at, k)
                } else {
                    forall|k: int| !closes(t, open, close, k, at)
                },
            }
        }),
{
    let (open, close, forward) = bracket(t[at])->0;
    assert(open != close);
    if forward {
        assert(balance(t, open, close, at, at + 1) == 1) by {
            reveal_with_fuel(balance, 2);
        }
        lemma_close_from(t, open, close, at, at + 1, 1);
    } else {
        assert(balance(t, open, close, at, at + 1) == -1) by {
            reveal_with_fuel(balance, 2);
        }
        lemma_open_before(t, open, close, at, at, 1);
    }
}

/// A bracket's match is matched by it: jumping twice returns.
pub proof fn matching_is_symmetric(t: Seq<char>, at: int)
    requires
        matching(t, at) is Some,
    ensures
        matching(t, matching(t, at)->0) == Some(at),
{
    let k = matching(t, at)->0;
    matching_is_balanced(t, at);
    let (open, close, forward) = bracket(t[at])->0;
    assert(bracket(open) == Some((open, close, true)));
    assert(bracket(close) == Some((open, close, false)));
    matching_is_balanced(t, k);
    if forward {
        if matching(t, k) is Some {
            let b = matching(t, k)->0;
            assert(closes(t, open, close, b, k));
            lemma_opener_unique(t, open, close, at, b, k);
        }
    } else {
        if matching(t, k) is Some {
            let b = matching(t, k)->0;
            assert(closes(t, open, close, k, b));
            lemma_closer_unique(t, open, close, k, at, b);
        }
    }
}

proof fn lemma_closer_unique(t: Seq<char>, open: char, close: char, at: int, i: int, j: int)
    requires
        closes(t, open, close, at, i),
        closes(t, open, close, at, j),
    ensures
        i == j,
{
    if i < j {
        assert(balance(t, open, close, at, i + 1) > 0);
    } else if j < i {
        assert(balance(t, open, close, at, j + 1) > 0);
    }
}

proof fn lemma_opener_unique(t: Seq<char>, open: char, close: char, a: int, b: int, i: int)
    requires
        closes(t, open, close, a, i),
        closes(t, open, close, b, i),
    ensures
        a == b,
{
    if a < b {
        lemma_balance_split(t, open, close, a, b, i + 1);
        assert(balance(t, open, close, a, b) > 0);
    } else if b < a {
        lemma_balance_split(t, open, close, b, a, i + 1);
        assert(balance(t, open, close, b, a) > 0);
    }
}

fn bracket_of(c: char) -> (r: Option<(char, char, bool)>)
    ensures
        r == bracket(c),
{
    match c {
        '(' => Some(('(', ')', true)),
        ')' => Some(('(', ')', false)),
        '[' => Some(('[', ']', true)),
        ']' => Some(('[', ']', false)),
        '{' => Some(('{', '}', true)),
        '}' => Some(('{', '}', false)),
        _ => None,
    }
}

/// Finds the bracket that belongs to the one at a position.
pub fn find_match(rope: &ropey::Rope, at: usize) -> (r: Option<usize>)
    requires
        at < text::rope_text(*rope).len(),
    ensures
        match r {
            Some(k) => matching(text::rope_text(*rope), at as int) == Some(k as int) && k
                < text::rope_text(*rope).len(),
            None => matching(text::rope_text(*rope), at as int) is None,
        },
{
    let ghost t = text::rope_text(*rope);
    let (open, close, forward) = match bracket_of(rope_char(rope, at)) {
        Some(b) => b,
        None => {
            return None;
        },
    };
    let len: usize = rope_len(rope);
    let mut depth: usize = 1;
    if forward {
        let mut i: usize = at + 1;
        while i < len
            invariant
                at < i <= len,
                len == t.len(),
                t == text::rope_text(*rope),
                open != close,
                1 <= depth <= i - at,
                bracket(t[at as int]) == Some((open, close, true)),
                close_from(t, open, close, at + 1, 1) == close_from(
                    t,
                    open,
                    close,
                    i as int,
                    depth as int,
                ),
            decreases len - i,
        {
            let ch = rope_char(rope, i);
            if ch == open {
                depth = depth + 1;
            } else if ch == close {
                depth = depth - 1;
                if depth == 0 {
                    return Some(i);
                }
            }
            i = i + 1;
        }
    } else {
        let mut i: usize = at;
        while i > 0
            invariant
                i <= at < len,
                len == t.len(),
                t == text::rope_text(*rope),
                open != close,
                1 <= depth <= at - i + 1,
                bracket(t[at as int]) == Some((open, close, false)),
                open_before(t, open, close, at as int, 1) == open_before(
                    t,
                    open,
                    close,
                    i as int,
                    depth as int,
                ),
            decreases i,
        {
            let ch = rope_char(rope, i - 1);
            if ch == close {
                depth = depth + 1;
            } else if ch == open {
                depth = depth - 1;
                if depth == 0 {
                    return Some(i - 1);
                }
            }
            i = i - 1;
        }
    }
    None
}

/// Where the bracket at the cursor, or else the one before it, leads.
pub open spec fn bracket_target(t: Seq<char>, c: Cursor) -> Option<int> {
    let pos = columns::cursor_index(t, c);
    if matching(t, pos) is Some {
        matching(t, pos)
    } else {
        matching(t, pos - 1)
    }
}

/// What a jump to the matching bracket does.
pub open spec fn bracket_jumped(
    tabs: TabsView,
    e: EditsView,
    j: JumpsView,
) -> (TabsView, JumpsView) {
    match buffers::active_loaded(tabs, e) {
        None => (tabs, j),
        Some(i) => {
            let t = tabs.open[i];
            let b = e.buffers[t.path];
            match bracket_target(b.text, t.cursor) {
                None => (tabs, j),
                Some(to) => (
                    tabs.with_tab(i, edit::at_cursor(t, columns::index_cursor(b.text, to))),
                    jumps::recorded(j, jumps::tab_position(t)),
                ),
            }
        },
    }
}

/// Jumps to the bracket that belongs to the one at the cursor, or before
/// it, and records where the jump started.
pub fn match_bracket(tabs: &mut Tabs, edits: &BufferEdits, jumps: &mut JumpListState)
    ensures
        (final(tabs)@, final(jumps)@) == bracket_jumped(old(tabs)@, edits@, old(jumps)@),
{
    let idx: usize = match tabs.active_index() {
        Some(i) => i,
        None => {
            return;
        },
    };
    let mut tab = tabs.at(idx).copy();
    let eb = match edits.get(tab.path.as_str()) {
        Some(b) => b,
        None => {
            return;
        },
    };
    let rope = &eb.rope;
    let pos: usize = cursor_to_char(&tab.cursor, rope);
    let len: usize = rope_len(rope);
    let mut target: Option<usize> = None;
    if pos < len {
        target = find_match(rope, pos);
    }
    if target.is_none() && pos > 0 {
        target = find_match(rope, pos - 1);
    }
    if let Some(to) = target {
        if let Some(here) = current_position(tabs) {
            jumps.record(here);
        }
        tab.cursor = char_to_cursor(to, rope);
        tabs.set(idx, tab);
    }
}

// ---------------------------------------------------------------------
// The jump list
// ---------------------------------------------------------------------

/// The tabs after a jump to a place: its tab gets the focus, with the
/// cursor there as far as the text reaches. Nothing happens when no tab
/// shows the file or its buffer is not loaded.
pub open spec fn jump_applied(tabs: TabsView, e: EditsView, p: JumpView) -> TabsView {
    match tabs.find_path(p.path) {
        None => tabs,
        Some(i) => if e.has(p.path) {
            let t = tabs.open[i];
            let text = e.buffers[p.path].text;
            let line = columns::clamped_line(text, p.line as int);
            let n = columns::col_count(text, line);
            let col = if p.col < n {
                p.col
            } else {
                n as usize
            };
            TabsView {
                active: Some(t.id),
                ..tabs.with_tab(
                    i,
                    edit::at_cursor(t, Cursor { line: line as usize, col, preferred_col: col }),
                )
            }
        } else {
            tabs
        },
    }
}

/// Goes to a place.
pub fn apply_jump(tabs: &mut Tabs, edits: &BufferEdits, pos: &JumpPosition)
    ensures
        final(tabs)@ == jump_applied(old(tabs)@, edits@, pos@),
{
    let idx: usize = match tabs.find_path(pos.path.as_str()) {
        Some(i) => i,
        None => {
            return;
        },
    };
    let eb = match edits.get(pos.path.as_str()) {
        Some(b) => b,
        None => {
            return;
        },
    };
    let count: usize = rope_len_lines(&eb.rope);
    let line: usize = if pos.line < count { pos.line } else { count - 1 };
    let n: usize = line_grapheme_len(&eb.rope, line);
    let col: usize = if pos.col < n { pos.col } else { n };
    let mut tab = tabs.at(idx).copy();
    tab.cursor = Cursor { line, col, preferred_col: col };
    tabs.active = Some(tab.id);
    tabs.set(idx, tab);
}

/// One place back in the jump list. Without an active tab nothing happens.
pub open spec fn jumped_back(tabs: TabsView, e: EditsView, j: JumpsView) -> (TabsView, JumpsView) {
    if !jumps::can_back(j) || jumps::position(tabs) is None {
        (tabs, j)
    } else {
        let j2 = jumps::stepped_back(j, jumps::position(tabs)->0);
        (jump_applied(tabs, e, j2.entries[j2.index]), j2)
    }
}

/// Goes one place back in the jump list.
pub fn jump_back(tabs: &mut Tabs, edits: &BufferEdits, jumps: &mut JumpListState)
    ensures
        (final(tabs)@, final(jumps)@) == jumped_back(old(tabs)@, edits@, old(jumps)@),
{
    if !jumps.can_back() {
        return;
    }
    let here = match current_position(tabs) {
        Some(p) => p,
        None => {
            return;
        },
    };
    if let Some(target) = jumps.step_back(here) {
        apply_jump(tabs, edits, &target);
    }
}

/// One place forward in the jump list. Without an active tab nothing
/// happens.
pub open spec fn jumped_forward(tabs: TabsView, e: EditsView, j: JumpsView) -> (TabsView, JumpsView) {
    if !jumps::can_forward(j) || jumps::position(tabs) is None {
        (tabs, j)
    } else {
        let j2 = jumps::stepped_forward(j);
        (jump_applied(tabs, e, j2.entries[j2.index]), j2)
    }
}

/// Goes one place forward in the jump list.
pub fn jump_forward(tabs: &mut Tabs, edits: &BufferEdits, jumps: &mut JumpListState)
    ensures
        (final(tabs)@, final(jumps)@) == jumped_forward(old(tabs)@, edits@, old(jumps)@),
{
    if current_position(tabs).is_none() {
        return;
    }
    if let Some(target) = jumps.step_forward() {
        apply_jump(tabs, edits, &target);
    }
}

// ---------------------------------------------------------------------
// Laws
// ---------------------------------------------------------------------

/// The pairs of brackets.
pub open spec fn is_pair(open: char, close: char) -> bool {
    ||| open == '(' && close == ')'
    ||| open == '[' && close == ']'
    ||| open == '{' && close == '}'
}

/// Round, square and curly brackets all lead to the bracket that closes
/// them, and back; nothing else has a match.
pub proof fn brackets_lead_to_each_other(t: Seq<char>, open: char, close: char, at: int, k: int)
    requires
        0 <= at < t.len(),
    ensures
        is_pair(open, close) && t[at] == open ==> (matching(t, at) == Some(k) <==> closes(
            t,
            open,
            close,
            at,
            k,
        )),
        is_pair(open, close) && t[at] == close ==> (matching(t, at) == Some(k) <==> closes(
            t,
            open,
            close,
            k,
            at,
        )),
        t[at] != '(' && t[at] != ')' && t[at] != '[' && t[at] != ']' && t[at] != '{' && t[at]
            != '}' ==> matching(t, at) is None,
{
    if is_pair(open, close) && (t[at] == open || t[at] == close) {
        assert(bracket(t[at]) == Some((open, close, t[at] == open)));
        matching_is_balanced(t, at);
        if t[at] == open {
            if closes(t, open, close, at, k) && matching(t, at) is Some {
                lemma_closer_unique(t, open, close, at, k, matching(t, at)->0);
            }
        } else if closes(t, open, close, k, at) && matching(t, at) is Some {
            lemma_opener_unique(t, open, close, k, matching(t, at)->0, at);
        }
    }
}

proof fn lemma_flat(t: Seq<char>, open: char, close: char, a: int, b: int)
    requires
        0 <= a <= b <= t.len(),
        forall|j: int| a <= j < b ==> #[trigger] t[j] != open && t[j] != close,
    ensures
        balance(t, open, close, a, b) == 0,
    decreases b - a,
{
    if a < b {
        lemma_flat(t, open, close, a, b - 1);
    }
}

/// Two brackets of a pair with none of their kind between them belong
/// together.
pub proof fn neighbouring_brackets_match(t: Seq<char>, open: char, close: char, a: int, b: int)
    requires
        is_pair(open, close),
        0 <= a < b < t.len(),
        t[a] == open,
        t[b] == close,
        forall|j: int| a < j < b ==> #[trigger] t[j] != open && t[j] != close,
    ensures
        matching(t, a) == Some(b),
        matching(t, b) == Some(a),
{
    assert forall|j: int| a < j <= b implies #[trigger] balance(t, open, close, a, j) > 0 by {
        lemma_balance_split(t, open, close, a, a + 1, j);
        lemma_flat(t, open, close, a + 1, j);
        reveal_with_fuel(balance, 2);
    }
    lemma_balance_split(t, open, close, a, a + 1, b);
    lemma_flat(t, open, close, a + 1, b);
    assert(balance(t, open, close, a, a + 1) == 1) by {
        reveal_with_fuel(balance, 2);
    }
    assert(closes(t, open, close, a, b));
    brackets_lead_to_each_other(t, open, close, a, b);
    brackets_lead_to_each_other(t, open, close, b, a);
}

/// A jump goes from the bracket at the cursor, or if that has no match from
/// the one before, to its match; it can be jumped back from. Without a match
/// nothing happens.
pub proof fn jumping_goes_to_the_match(tabs: TabsView, e: EditsView, j: JumpsView, i: int)
    requires
        buffers::active_loaded(tabs, e) == Some(i),
        0 <= j.index <= j.entries.len(),
    ensures
        ({
            let (t2, j2) = bracket_jumped(tabs, e, j);
            let t = tabs.open[i];
            let text = e.buffers[t.path].text;
            let pos = columns::cursor_index(text, t.cursor);
            let here = matching(text, pos);
            let before = matching(text, pos - 1);
            &&& crate::tabs::others_kept(tabs, t2, i)
            &&& here is Some ==> t2.open[i].cursor == columns::index_cursor(text, here->0)
            &&& here is None && before is Some ==> t2.open[i].cursor == columns::index_cursor(
                text,
                before->0,
            )
            &&& here is None && before is None ==> t2 == tabs && j2 == j
            &&& here is Some || before is Some ==> {
                &&& j2.index == j.index + 1
                &&& j2.entries.len() > 0
                &&& j2.entries.last() == (JumpView {
                    path: t.path,
                    line: t.cursor.line,
                    col: t.cursor.col,
                    scroll: t.scroll,
                })
            }
        }),
{
    crate::seqs::lemma_first_from(tabs.open, crate::tabs::by_id(tabs.active->0), 0);
}

/// A jump shows the file that it leads to, with the cursor at its place, or
/// as near to it as the text reaches; no other tab changes.
pub proof fn jumps_lead_to_their_place(tabs: TabsView, e: EditsView, p: JumpView)
    ensures
        ({
            let t2 = jump_applied(tabs, e, p);
            let text = e.buffers[p.path].text;
            let last = text::line_count(text) - 1;
            &&& (forall|k: int| 0 <= k < tabs.open.len() ==> (#[trigger] tabs.open[k]).path != p.path)
                ==> t2 == tabs
            &&& !e.has(p.path) ==> t2 == tabs
            &&& tabs.find_path(p.path) is Some && e.has(p.path) && last <= usize::MAX ==> {
                let i = tabs.find_path(p.path)->0;
                let c = t2.open[i].cursor;
                let n = columns::col_count(text, c.line as int);
                &&& tabs.open[i].path == p.path
                &&& t2.active == Some(tabs.open[i].id)
                &&& t2.open == tabs.open.update(i, crate::tabs::TabView { cursor: c, ..tabs.open[i] })
                &&& p.line <= last ==> c.line == p.line
                &&& p.line > last ==> c.line == last
                &&& p.col <= n ==> c.col == p.col
                &&& p.col > n && n <= usize::MAX ==> c.col == n
                &&& c.preferred_col == c.col
            }
        }),
{
    crate::seqs::lemma_first_from(tabs.open, crate::tabs::by_path(p.path), 0);
    text::text_has_a_line(e.buffers[p.path].text);
    if tabs.find_path(p.path) is Some {
        let i = tabs.find_path(p.path)->0;
        assert(crate::tabs::by_path(p.path)(tabs.open[i]));
        assert(tabs.open[i].path == p.path);
    }
}

/// Going back shows the place before in the list, and forward the place
/// behind; at the ends nothing happens.
pub proof fn going_back_shows_the_place_before(tabs: TabsView, e: EditsView, j: JumpsView)
    requires
        0 <= j.index <= j.entries.len(),
        jumps::position(tabs) is Some,
    ensures
        j.index > 0 ==> jumped_back(tabs, e, j).0 == jump_applied(
            tabs,
            e,
            j.entries[j.index - 1],
        ),
        j.index == 0 ==> jumped_back(tabs, e, j) == (tabs, j),
        j.index + 1 < j.entries.len() ==> jumped_forward(tabs, e, j).0 == jump_applied(
            tabs,
            e,
            j.entries[j.index + 1],
        ),
        j.index + 1 >= j.entries.len() ==> jumped_forward(tabs, e, j) == (tabs, j),
{
}

} // verus!
