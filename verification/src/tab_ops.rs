//! Cycling through tabs and closing them.

use vstd::prelude::*;

use crate::alerts;
use crate::alerts::{AlertState, AlertsView};
use crate::buffers::{BufferEdits, EditsView};
use crate::edits;
use crate::jumps;
use crate::jumps::{current_position, JumpListState, JumpView, JumpsView};
use crate::paths;
use crate::seqs;
use crate::tabs;
use crate::tabs::{TabId, Tabs, TabsView};
use crate::truth;

verus! {

/// The index of the active tab, or the first.
pub open spec fn place(s: TabsView) -> int {
    match s.active_index() {
        Some(i) => i,
        None => 0,
    }
}

/// The index that cycling by `delta` leads to: the tabs form a ring.
pub open spec fn cycled_index(s: TabsView, delta: int) -> int {
    (place(s) + delta) % (s.open.len() as int)
}

/// The focus moved along the ring of tabs.
pub open spec fn cycled(s: TabsView, delta: int) -> TabsView {
    if s.open.len() == 0 {
        s
    } else {
        TabsView { active: Some(s.open[cycled_index(s, delta)].id), ..s }
    }
}

/// The jump list after cycling: the tab that is left is recorded.
pub open spec fn cycle_recorded(s: TabsView, j: JumpsView, delta: int) -> JumpsView {
    if s.open.len() == 0 {
        j
    } else {
        match s.active_index() {
            Some(i) => if s.open[i].id != s.open[cycled_index(s, delta)].id {
                jumps::recorded(j, jumps::tab_position(s.open[i]))
            } else {
                j
            },
            None => j,
        }
    }
}

/// The index `delta` places further on a ring of `n`.
pub fn ring(n: usize, cur: usize, delta: isize) -> (r: usize)
    requires
        cur < n,
    ensures
        r == (cur + delta) % (n as int),
        r < n,
{
    if delta >= 0 {
        let d: usize = (delta as usize) % n;
        proof {
            vstd::arithmetic::div_mod::lemma_add_mod_noop_right(cur as int, delta as int, n as int);
        }
        if d < n - cur {
            proof {
                vstd::arithmetic::div_mod::lemma_small_mod((cur + d) as nat, n as nat);
            }
            cur + d
        } else {
            proof {
                vstd::arithmetic::div_mod::lemma_mod_add_multiples_vanish(cur + d - n, n as int);
                vstd::arithmetic::div_mod::lemma_small_mod((cur + d - n) as nat, n as nat);
            }
            cur - (n - d)
        }
    } else {
        let back: usize = (-(delta + 1)) as usize;
        let d: usize = back % n;
        proof {
            vstd::arithmetic::div_mod::lemma_sub_mod_noop_right(cur - 1, back as int, n as int);
        }
        if d < cur {
            proof {
                vstd::arithmetic::div_mod::lemma_small_mod((cur - 1 - d) as nat, n as nat);
            }
            cur - 1 - d
        } else {
            proof {
                vstd::arithmetic::div_mod::lemma_mod_add_multiples_vanish(cur - 1 - d, n as int);
                vstd::arithmetic::div_mod::lemma_small_mod((cur - 1 - d + n) as nat, n as nat);
            }
            n - 1 - (d - cur)
        }
    }
}

/// Moves the focus along the ring of tabs, and records the tab that is
/// left.
pub fn cycle_active(tabs: &mut Tabs, jumps: &mut JumpListState, delta: isize)
    ensures
        final(tabs)@ == cycled(old(tabs)@, delta as int),
        final(jumps)@ == cycle_recorded(old(tabs)@, old(jumps)@, delta as int),
{
    let n: usize = tabs.len();
    if n == 0 {
        return;
    }
    let active = tabs.active_index();
    let cur: usize = match active {
        Some(i) => i,
        None => 0,
    };
    let next: usize = ring(n, cur, delta);
    let next_id = tabs.at(next).id;
    if let Some(i) = active {
        if tabs.at(i).id != next_id {
            let here = current_position(tabs);
            if let Some(p) = here {
                jumps.record(p);
            }
        }
    }
    tabs.active = Some(next_id);
}

/// Cycling on and then back returns to the tab one started from.
pub proof fn cycling_back_returns(s: TabsView)
    requires
        tabs::unique_ids(s),
        s.active_index() is Some,
    ensures
        cycled(cycled(s, 1), -1) == s,
        cycled(cycled(s, -1), 1) == s,
{
    let n = s.open.len() as int;
    let i = s.active_index()->0;
    seqs::lemma_first_from(s.open, tabs::by_id(s.active->0), 0);
    let a = cycled(s, 1);
    let k = cycled_index(s, 1);
    let b = cycled(s, -1);
    let m = cycled_index(s, -1);
    vstd::arithmetic::div_mod::lemma_mod_bound(i + 1, n);
    vstd::arithmetic::div_mod::lemma_mod_bound(i - 1, n);
    tabs::lemma_find(a, k);
    tabs::lemma_find(b, m);
    vstd::arithmetic::div_mod::lemma_sub_mod_noop(i + 1, 1, n);
    assert((k - 1) % n == i) by {
        vstd::arithmetic::div_mod::lemma_mod_twice(i + 1, n);
        assert((k - 1) % n == (i + 1 - 1) % n) by {
            vstd::arithmetic::div_mod::lemma_sub_mod_noop(i + 1, 1, n);
            vstd::arithmetic::div_mod::lemma_sub_mod_noop(k, 1, n);
            vstd::arithmetic::div_mod::lemma_mod_twice(i + 1, n);
        }
        vstd::arithmetic::div_mod::lemma_small_mod(i as nat, n as nat);
    }
    assert((m + 1) % n == i) by {
        vstd::arithmetic::div_mod::lemma_add_mod_noop(i - 1, 1, n);
        vstd::arithmetic::div_mod::lemma_add_mod_noop(m, 1, n);
        vstd::arithmetic::div_mod::lemma_mod_twice(i - 1, n);
        vstd::arithmetic::div_mod::lemma_small_mod(i as nat, n as nat);
    }
}

// ---------------------------------------------------------------------
// Closing
// ---------------------------------------------------------------------

/// The tabs without the one with this id. If it had the focus, its right
/// neighbour gets it, or at the end the last tab.
pub open spec fn tab_killed(s: TabsView, id: TabId) -> TabsView {
    match s.find(id) {
        None => s,
        Some(i) => {
            let open = s.open.remove(i);
            TabsView {
                active: if open.len() == 0 {
                    None
                } else if s.active == Some(id) {
                    Some(open[edits::least(i, open.len() - 1)].id)
                } else {
                    s.active
                },
                ..s.without(i)
            }
        },
    }
}

/// The buffers without the one of the killed tab.
pub open spec fn buffer_killed(s: TabsView, e: EditsView, id: TabId) -> EditsView {
    match s.find(id) {
        None => e,
        Some(i) => EditsView {
            buffers: e.buffers.remove(s.open[i].path),
            pending_saves: e.pending_saves.remove(s.open[i].path),
            ..e
        },
    }
}

/// Removes a tab, its buffer and what was asked of it.
pub fn force_kill(tabs: &mut Tabs, edits: &mut BufferEdits, id: TabId)
    ensures
        final(tabs)@ == tab_killed(old(tabs)@, id),
        final(edits)@ == buffer_killed(old(tabs)@, old(edits)@, id),
        truth::all_truthful(old(edits)@) ==> truth::all_truthful(final(edits)@),
{
    let idx: usize = match tabs.find(id) {
        Some(i) => i,
        None => {
            return;
        },
    };
    let path = tabs.at(idx).path.text.clone();
    tabs.remove(idx);
    let ghost e0 = edits@;
    let _ = edits.take(path.as_str());
    edits.pending_saves.remove(path.as_str());
    proof {
        truth::lemma_fewer(e0, edits@);
    }
    let n: usize = tabs.len();
    if n == 0 {
        tabs.active = None;
    } else if let Some(a) = tabs.active {
        if a == id {
            let next: usize = if idx < n - 1 { idx } else { n - 1 };
            tabs.active = Some(tabs.at(next).id);
        }
    }
}

/// The active buffer has changes that would be lost.
pub open spec fn active_dirty(s: TabsView, e: EditsView) -> bool {
    s.active_index() matches Some(i) && e.has(s.open[i].path) && edits::is_dirty(
        e.buffers[s.open[i].path],
    )
}

/// What closing the active tab does: with unsaved changes it asks first.
pub open spec fn active_killed(
    s: TabsView,
    e: EditsView,
    a: AlertsView,
    now: u64,
) -> (TabsView, EditsView, AlertsView) {
    match s.active_index() {
        None => (s, e, a),
        Some(i) => if active_dirty(s, e) {
            (s, e, AlertsView { confirm_kill: s.active, ..a })
        } else {
            let name = paths::base_name(s.open[i].path);
            (
                tab_killed(s, s.active->0),
                buffer_killed(s, e, s.active->0),
                if name.len() > 0 {
                    alerts::informed(a, "Killed "@ + name, now)
                } else {
                    a
                },
            )
        },
    }
}

/// Closes the active tab, or asks whether to when its buffer has unsaved
/// changes.
pub fn kill_active(tabs: &mut Tabs, edits: &mut BufferEdits, alerts: &mut AlertState, now: u64)
    ensures
        (final(tabs)@, final(edits)@, final(alerts)@) == active_killed(
            old(tabs)@,
            old(edits)@,
            old(alerts)@,
            now,
        ),
        truth::all_truthful(old(edits)@) ==> truth::all_truthful(final(edits)@),
{
    let idx: usize = match tabs.active_index() {
        Some(i) => i,
        None => {
            return;
        },
    };
    let id = tabs.at(idx).id;
    let dirty: bool = match edits.get(tabs.at(idx).path.as_str()) {
        Some(eb) => eb.dirty(),
        None => false,
    };
    if dirty {
        alerts.confirm_kill = Some(id);
        return;
    }
    let name = tabs.at(idx).path.file_name();
    force_kill(tabs, edits, id);
    if name.as_str().unicode_len() > 0 {
        let mut msg = "Killed ".to_owned();
        msg.push_str(name.as_str());
        alerts.set_info(msg, now);
    }
}

/// After a kill the tab is gone, the others keep their order, and the
/// focus is on an open tab, or on none when no tab is left. The newest id
/// stays the newest, so that the next tab gets another.
pub proof fn killing_removes_the_tab(s: TabsView, id: TabId)
    requires
        tabs::unique_ids(s),
        tabs::focus_open(s),
        s.find(id) is Some,
    ensures
        tab_killed(s, id).find(id) is None,
        tab_killed(s, id).open == s.open.remove(s.find(id)->0),
        tabs::unique_ids(tab_killed(s, id)),
        tabs::focus_open(tab_killed(s, id)),
        tabs::newest_id(tab_killed(s, id)) == tabs::newest_id(s),
{
    let k = tab_killed(s, id);
    let i = s.find(id)->0;
    seqs::lemma_first_from(s.open, tabs::by_id(id), 0);
    tabs::ids_are_never_reused(s, seq![], true);
    assert(tabs::newest_id(s.without(i)) == tabs::newest_id(s));
    assert forall|j: int| 0 <= j < k.open.len() implies !tabs::by_id(id)(#[trigger] k.open[j]) by {
        if j < i {
            assert(s.open[j].id != s.open[i].id);
        } else {
            assert(s.open[i].id != s.open[j + 1].id);
        }
    }
    seqs::lemma_first_none(k.open, tabs::by_id(id), 0);
    if k.open.len() > 0 {
        if s.active == Some(id) {
            tabs::lemma_find_some(
                k,
                k.active->0,
                edits::least(i, k.open.len() - 1),
            );
        } else if s.active is Some {
            let f = s.find(s.active->0)->0;
            seqs::lemma_first_from(s.open, tabs::by_id(s.active->0), 0);
            if f < i {
                tabs::lemma_find_some(k, k.active->0, f);
            } else {
                tabs::lemma_find_some(k, k.active->0, f - 1);
            }
        }
    }
}

/// A tab with unsaved changes is never closed without asking.
pub proof fn dirty_tab_is_not_closed_unasked(s: TabsView, e: EditsView, a: AlertsView, now: u64)
    requires
        active_dirty(s, e),
    ensures
        active_killed(s, e, a, now).0 == s,
        active_killed(s, e, a, now).1 == e,
        active_killed(s, e, a, now).2.confirm_kill == s.active,
{
}

// ---------------------------------------------------------------------
// Laws
// ---------------------------------------------------------------------

/// Cycling goes to the tab to the right, or to the left, and at the ends
/// round to the other end; the tabs themselves stay. The place that is left
/// can be jumped back to.
pub proof fn cycling_goes_to_the_neighbour(s: TabsView, j: JumpsView, i: int)
    requires
        s.active_index() == Some(i),
    ensures
        ({
            let n = s.open.len() as int;
            let right = if i + 1 < n {
                i + 1
            } else {
                0
            };
            let left = if i > 0 {
                i - 1
            } else {
                n - 1
            };
            let here = JumpView {
                path: s.open[i].path,
                line: s.open[i].cursor.line,
                col: s.open[i].cursor.col,
                scroll: s.open[i].scroll,
            };
            &&& cycled(s, 1) == (TabsView { active: Some(s.open[right].id), ..s })
            &&& cycled(s, -1) == (TabsView { active: Some(s.open[left].id), ..s })
            &&& cycle_recorded(s, j, 1) == if s.open[right].id != s.open[i].id {
                jumps::recorded(j, here)
            } else {
                j
            }
            &&& cycle_recorded(s, j, -1) == if s.open[left].id != s.open[i].id {
                jumps::recorded(j, here)
            } else {
                j
            }
        }),
{
    let n = s.open.len() as int;
    seqs::lemma_first_from(s.open, tabs::by_id(s.active->0), 0);
    if i + 1 < n {
        vstd::arithmetic::div_mod::lemma_small_mod((i + 1) as nat, n as nat);
    } else {
        vstd::arithmetic::div_mod::lemma_mod_self_0(n);
    }
    if i > 0 {
        vstd::arithmetic::div_mod::lemma_small_mod((i - 1) as nat, n as nat);
    } else {
        vstd::arithmetic::div_mod::lemma_mod_add_multiples_vanish(-1, n);
        vstd::arithmetic::div_mod::lemma_small_mod((n - 1) as nat, n as nat);
    }
}

/// Killing a tab closes it and forgets its buffer and what was to be
/// written of it; the focus goes to the tab that takes its place, or at the
/// end to the one before, if the tab had it, and stays else.
pub proof fn killing_forgets_the_buffer(s: TabsView, e: EditsView, id: TabId, i: int)
    requires
        s.find(id) == Some(i),
    ensures
        ({
            let k = tab_killed(s, id);
            let e2 = buffer_killed(s, e, id);
            let n = s.open.len() as int;
            let path = s.open[i].path;
            &&& s.open[i].id == id
            &&& k.open == s.open.remove(i)
            &&& n == 1 ==> k.active is None
            &&& n > 1 && s.active != Some(id) ==> k.active == s.active
            &&& n > 1 && s.active == Some(id) && i + 1 < n ==> k.active == Some(s.open[i + 1].id)
            &&& n > 1 && s.active == Some(id) && i + 1 == n ==> k.active == Some(s.open[i - 1].id)
            &&& !e2.has(path)
            &&& !e2.pending_saves.contains(path)
            &&& forall|p: Seq<char>|
                p != path ==> #[trigger] e2.has(p) == e.has(p) && e2.buffers[p] == e.buffers[p]
            &&& forall|p: Seq<char>|
                p != path ==> #[trigger] e2.pending_saves.contains(p)
                    == e.pending_saves.contains(p)
        }),
{
    seqs::lemma_first_from(s.open, tabs::by_id(id), 0);
    assert(tabs::by_id(id)(s.open[i]));
}

/// Closing the active tab kills it at once if its buffer has no changes, and
/// tells its name; there is nothing to be asked then.
pub proof fn a_clean_tab_is_closed_at_once(s: TabsView, e: EditsView, a: AlertsView, now: u64, i: int)
    requires
        s.active_index() == Some(i),
        e.has(s.open[i].path) ==> e.buffers[s.open[i].path].version
            <= e.buffers[s.open[i].path].saved_version,
    ensures
        ({
            let (s2, e2, a2) = active_killed(s, e, a, now);
            &&& s2.open == s.open.remove(i)
            &&& !e2.has(s.open[i].path)
            &&& a2.confirm_kill == a.confirm_kill
            &&& paths::base_name(s.open[i].path).len() > 0 ==> a2.info is Some && (a2.info->0).0
                == "Killed "@ + paths::base_name(s.open[i].path)
            &&& a2.warns == a.warns
        }),
{
    seqs::lemma_first_from(s.open, tabs::by_id(s.active->0), 0);
}

} // verus!
