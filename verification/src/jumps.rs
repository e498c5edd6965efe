//! The jump list: places to go back to.

use vstd::prelude::*;

use crate::columns::Scroll;
use crate::paths::CanonPath;
use crate::tabs::{TabView, Tabs, TabsView};

verus! {

pub struct JumpPosition {
    pub path: CanonPath,
    pub line: usize,
    pub col: usize,
    pub scroll: Scroll,
}

#[verifier::ext_equal]
pub struct JumpView {
    pub path: Seq<char>,
    pub line: usize,
    pub col: usize,
    pub scroll: Scroll,
}

impl View for JumpPosition {
    type V = JumpView;

    open spec fn view(&self) -> JumpView {
        JumpView { path: self.path@, line: self.line, col: self.col, scroll: self.scroll }
    }
}

impl JumpPosition {
    pub fn copy(&self) -> (j: JumpPosition)
        ensures
            j == *self,
    {
        JumpPosition {
            path: self.path.copy(),
            line: self.line,
            col: self.col,
            scroll: self.scroll,
        }
    }
}

/// The places, oldest first, and where in them the user stands. Past the
/// last one is the head: the present.
pub struct JumpListState {
    pub entries: Vec<JumpPosition>,
    pub index: usize,
}

#[verifier::ext_equal]
pub struct JumpsView {
    pub entries: Seq<JumpView>,
    pub index: int,
}

pub open spec fn jump_views(s: Seq<JumpPosition>) -> Seq<JumpView> {
    Seq::new(s.len(), |i: int| s[i]@)
}

impl View for JumpListState {
    type V = JumpsView;

    open spec fn view(&self) -> JumpsView {
        JumpsView { entries: jump_views(self.entries@), index: self.index as int }
    }
}

/// A new place: what lay ahead is forgotten.
pub open spec fn recorded(j: JumpsView, p: JumpView) -> JumpsView {
    let kept = if j.index < j.entries.len() {
        j.entries.subrange(0, j.index)
    } else {
        j.entries
    };
    JumpsView { entries: kept.push(p), index: kept.len() as int + 1 }
}

pub open spec fn can_back(j: JumpsView) -> bool {
    0 < j.index && j.entries.len() > 0
}

pub open spec fn can_forward(j: JumpsView) -> bool {
    j.index + 1 < j.entries.len()
}

/// One place back. From the head the present place is kept, so that it can
/// be returned to.
pub open spec fn stepped_back(j: JumpsView, current: JumpView) -> JumpsView {
    if !can_back(j) {
        j
    } else if j.index >= j.entries.len() {
        JumpsView { entries: j.entries.push(current), index: j.entries.len() - 1 }
    } else {
        JumpsView { index: j.index - 1, ..j }
    }
}

pub open spec fn stepped_forward(j: JumpsView) -> JumpsView {
    if can_forward(j) {
        JumpsView { index: j.index + 1, ..j }
    } else {
        j
    }
}

/// Going back from the head and then forward returns to where one was, and
/// can be repeated.
pub proof fn back_and_forward_returns(j: JumpsView, current: JumpView)
    requires
        j.entries.len() > 0,
        j.index == j.entries.len(),
    ensures
        ({
            let b = stepped_back(j, current);
            let f = stepped_forward(b);
            &&& b.entries[b.index] == j.entries[j.index - 1]
            &&& can_forward(b)
            &&& f.entries[f.index] == current
            &&& stepped_back(f, current) == b
        }),
{
}

impl JumpListState {
    pub fn new() -> (j: JumpListState)
        ensures
            j@ == (JumpsView { entries: seq![], index: 0 }),
    {
        let j = JumpListState { entries: Vec::new(), index: 0 };
        assert(j@ =~= JumpsView { entries: seq![], index: 0 });
        j
    }

    pub fn record(&mut self, p: JumpPosition)
        ensures
            final(self)@ == recorded(old(self)@, p@),
    {
        if self.index < self.entries.len() {
            self.entries.truncate(self.index);
        }
        self.entries.push(p);
        self.index = self.entries.len();
        assert(self@ =~= recorded(old(self)@, p@));
    }

    pub fn can_back(&self) -> (r: bool)
        ensures
            r == can_back(self@),
    {
        self.index > 0 && self.entries.len() > 0
    }

    pub fn can_forward(&self) -> (r: bool)
        ensures
            r == can_forward(self@),
    {
        self.entries.len() > 0 && self.index < self.entries.len() - 1
    }

    pub fn step_back(&mut self, current: JumpPosition) -> (r: Option<JumpPosition>)
        ensures
            final(self)@ == stepped_back(old(self)@, current@),
            r is Some <==> can_back(old(self)@),
            r is Some ==> r->0@ == final(self)@.entries[final(self)@.index],
    {
        if !self.can_back() {
            return None;
        }
        if self.index >= self.entries.len() {
            self.index = self.entries.len() - 1;
            self.entries.push(current);
        } else {
            self.index = self.index - 1;
        }
        assert(self@ =~= stepped_back(old(self)@, current@));
        Some(self.entries[self.index].copy())
    }

    pub fn step_forward(&mut self) -> (r: Option<JumpPosition>)
        ensures
            final(self)@ == stepped_forward(old(self)@),
            r is Some <==> can_forward(old(self)@),
            r is Some ==> r->0@ == final(self)@.entries[final(self)@.index],
    {
        if !self.can_forward() {
            return None;
        }
        let n: usize = self.entries.len();
        self.index = self.index + 1;
        Some(self.entries[self.index].copy())
    }
}

/// The place that a tab is at.
pub open spec fn tab_position(t: TabView) -> JumpView {
    JumpView { path: t.path, line: t.cursor.line, col: t.cursor.col, scroll: t.scroll }
}

/// The place of the active tab.
pub open spec fn position(tabs: TabsView) -> Option<JumpView> {
    match tabs.active_index() {
        Some(i) => Some(tab_position(tabs.open[i])),
        None => None,
    }
}

/// The place of the active tab.
pub fn current_position(tabs: &Tabs) -> (r: Option<JumpPosition>)
    ensures
        r is Some <==> position(tabs@) is Some,
        r is Some ==> r->0@ == position(tabs@)->0,
{
    match tabs.active_index() {
        Some(i) => {
            let t = tabs.at(i);
            Some(
                JumpPosition {
                    path: t.path.copy(),
                    line: t.cursor.line,
                    col: t.cursor.col,
                    scroll: t.scroll,
                },
            )
        },
        None => None,
    }
}

// ---------------------------------------------------------------------
// Laws
// ---------------------------------------------------------------------

/// A place that is recorded comes behind those that were gone through, what
/// lay ahead is forgotten, and the list stands behind it.
pub proof fn recording_forgets_what_lay_ahead(j: JumpsView, p: JumpView)
    requires
        0 <= j.index <= j.entries.len(),
    ensures
        ({
            let r = recorded(j, p);
            &&& r.index == j.index + 1
            &&& r.entries.len() == r.index
            &&& r.entries.last() == p
            &&& r.entries.subrange(0, j.index) == j.entries.subrange(0, j.index)
            &&& can_back(r)
            &&& !can_forward(r)
        }),
{
    let r = recorded(j, p);
    assert(r.entries.subrange(0, j.index) =~= j.entries.subrange(0, j.index));
}

/// Going back leads to the place before, and forward to the one behind; no
/// place that was kept is lost, and from the end the present one is added.
pub proof fn steps_lead_to_the_neighbours(j: JumpsView, current: JumpView)
    requires
        0 <= j.index <= j.entries.len(),
    ensures
        ({
            let b = stepped_back(j, current);
            let f = stepped_forward(j);
            &&& can_back(j) == (j.index > 0)
            &&& can_forward(j) == (j.index + 1 < j.entries.len())
            &&& j.index > 0 ==> b.index == j.index - 1 && b.entries[b.index] == j.entries[j.index
                - 1]
            &&& j.index > 0 && j.index == j.entries.len() ==> b.entries == j.entries.push(current)
            &&& j.index > 0 && j.index < j.entries.len() ==> b.entries == j.entries
            &&& j.index == 0 ==> b == j
            &&& j.index + 1 < j.entries.len() ==> f.index == j.index + 1 && f.entries == j.entries
            &&& j.index + 1 >= j.entries.len() ==> f == j
        }),
{
}

} // verus!
