//! Messages to the user.

use vstd::prelude::*;

use crate::tabs::TabId;

verus! {

/// How long a message stays, in milliseconds.
pub const INFO_TTL: u64 = 2000;

/// A passing message.
pub struct Info {
    pub text: String,
    /// When the message goes away, in milliseconds.
    pub expires: u64,
}

/// A lasting warning.
pub struct Warn {
    pub key: String,
    pub text: String,
}

pub struct AlertState {
    pub info: Option<Info>,
    pub warns: Vec<Warn>,
    /// The tab whose closing waits for a yes.
    pub confirm_kill: Option<TabId>,
}

#[verifier::ext_equal]
pub struct AlertsView {
    pub info: Option<(Seq<char>, u64)>,
    pub warns: Seq<(Seq<char>, Seq<char>)>,
    pub confirm_kill: Option<TabId>,
}

pub open spec fn warn_views(s: Seq<Warn>) -> Seq<(Seq<char>, Seq<char>)> {
    Seq::new(s.len(), |i: int| (s[i].key@, s[i].text@))
}

impl View for AlertState {
    type V = AlertsView;

    open spec fn view(&self) -> AlertsView {
        AlertsView {
            info: match self.info {
                Some(i) => Some((i.text@, i.expires)),
                None => None,
            },
            warns: warn_views(self.warns@),
            confirm_kill: self.confirm_kill,
        }
    }
}

pub open spec fn no_alerts() -> AlertsView {
    AlertsView { info: None, warns: seq![], confirm_kill: None }
}

/// When a message that is shown now goes away.
pub open spec fn expiry(now: u64) -> u64 {
    if now + INFO_TTL <= u64::MAX {
        (now + INFO_TTL) as u64
    } else {
        u64::MAX
    }
}

/// The alerts with another message.
pub open spec fn informed(a: AlertsView, text: Seq<char>, now: u64) -> AlertsView {
    AlertsView { info: Some((text, expiry(now))), ..a }
}

/// The warnings without those under `key`.
pub open spec fn without_warn(w: Seq<(Seq<char>, Seq<char>)>, key: Seq<char>) -> Seq<
    (Seq<char>, Seq<char>),
>
    decreases w.len(),
{
    if w.len() == 0 {
        w
    } else {
        let rest = without_warn(w.drop_last(), key);
        if w.last().0 == key {
            rest
        } else {
            rest.push(w.last())
        }
    }
}

/// The alerts with one warning under `key`.
pub open spec fn warned(a: AlertsView, key: Seq<char>, text: Seq<char>) -> AlertsView {
    AlertsView { warns: without_warn(a.warns, key).push((key, text)), ..a }
}

pub open spec fn warn_cleared(a: AlertsView, key: Seq<char>) -> AlertsView {
    AlertsView { warns: without_warn(a.warns, key), ..a }
}

impl AlertState {
    pub fn new() -> (a: AlertState)
        ensures
            a@ == no_alerts(),
    {
        let a = AlertState { info: None, warns: Vec::new(), confirm_kill: None };
        assert(a@ =~= no_alerts());
        a
    }

    /// Shows a message for a while.
    pub fn set_info(&mut self, text: String, now: u64)
        ensures
            final(self)@ == informed(old(self)@, text@, now),
    {
        self.info = Some(Info { text, expires: now.saturating_add(INFO_TTL) });
    }

    /// Drops the warnings under `key`.
    pub fn clear_warn(&mut self, key: &str)
        ensures
            final(self)@ == warn_cleared(old(self)@, key@),
    {
        let mut kept: Vec<Warn> = Vec::new();
        let mut i: usize = 0;
        let ghost w = warn_views(self.warns@);
        assert(w.subrange(0, 0) =~= Seq::<(Seq<char>, Seq<char>)>::empty());
        assert(warn_views(kept@) =~= Seq::<(Seq<char>, Seq<char>)>::empty());
        while i < self.warns.len()
            invariant
                i <= self.warns.len(),
                w == warn_views(self.warns@),
                self.info == old(self).info,
                self.confirm_kill == old(self).confirm_kill,
                warn_views(kept@) == without_warn(w.subrange(0, i as int), key@),
            decreases self.warns.len() - i,
        {
            let ghost was = kept@;
            assert(w.subrange(0, i + 1).drop_last() =~= w.subrange(0, i as int));
            assert(w.subrange(0, i + 1).last() == (self.warns[i as int].key@, self.warns[i as int].text@));
            if !crate::chars::same_text(self.warns[i].key.as_str(), key) {
                kept.push(
                    Warn { key: self.warns[i].key.clone(), text: self.warns[i].text.clone() },
                );
                assert(warn_views(kept@) =~= warn_views(was).push(
                    (self.warns[i as int].key@, self.warns[i as int].text@),
                ));
            }
            i = i + 1;
        }
        assert(w.subrange(0, w.len() as int) =~= w);
        self.warns = kept;
    }

    /// Puts one warning up under `key`.
    pub fn set_warn(&mut self, key: String, text: String)
        ensures
            final(self)@ == warned(old(self)@, key@, text@),
    {
        self.clear_warn(key.as_str());
        let ghost mid = self@;
        self.warns.push(Warn { key, text });
        assert(self@.warns =~= mid.warns.push((key@, text@)));
    }
}

// ---------------------------------------------------------------------
// Laws
// ---------------------------------------------------------------------

proof fn lemma_without(w: Seq<(Seq<char>, Seq<char>)>, key: Seq<char>, x: (Seq<char>, Seq<char>))
    ensures
        without_warn(w, key).contains(x) <==> w.contains(x) && x.0 != key,
    decreases w.len(),
{
    if w.len() > 0 {
        let l = w.drop_last();
        lemma_without(l, key, x);
        let r = without_warn(l, key);
        if w.contains(x) {
            let i = choose|i: int| 0 <= i < w.len() && w[i] == x;
            if i < l.len() {
                assert(l[i] == x);
            }
        }
        if l.contains(x) {
            let i = choose|i: int| 0 <= i < l.len() && l[i] == x;
            assert(w[i] == x);
        }
        assert(w[w.len() - 1] == w.last());
        if w.last().0 != key {
            let q = r.push(w.last());
            assert(q[r.len() as int] == w.last());
            if r.contains(x) {
                let i = choose|i: int| 0 <= i < r.len() && r[i] == x;
                assert(q[i] == x);
            }
            if q.contains(x) {
                let i = choose|i: int| 0 <= i < q.len() && q[i] == x;
                if i < r.len() {
                    assert(r[i] == x);
                }
            }
        }
    }
}

/// A warning takes the place of the one under its key and leaves the
/// others; clearing a key removes its warning and no other. A message stays
/// for two seconds.
pub proof fn one_warning_under_a_key(a: AlertsView, key: Seq<char>, text: Seq<char>, x: (Seq<char>, Seq<char>), now: u64)
    ensures
        x.0 == key ==> (warned(a, key, text).warns.contains(x) <==> x.1 == text),
        x.0 != key ==> (warned(a, key, text).warns.contains(x) <==> a.warns.contains(x)),
        warn_cleared(a, key).warns.contains(x) <==> a.warns.contains(x) && x.0 != key,
        warned(a, key, text).info == a.info,
        warn_cleared(a, key).info == a.info,
        informed(a, text, now).warns == a.warns,
        informed(a, text, now).confirm_kill == a.confirm_kill,
        informed(a, text, now).info is Some,
        (informed(a, text, now).info->0).0 == text,
        now + 2000 <= u64::MAX ==> (informed(a, text, now).info->0).1 == now + 2000,
{
    lemma_without(a.warns, key, x);
    let r = without_warn(a.warns, key);
    let q = r.push((key, text));
    assert(q[r.len() as int] == (key, text));
    if r.contains(x) {
        let i = choose|i: int| 0 <= i < r.len() && r[i] == x;
        assert(q[i] == x);
    }
    if q.contains(x) {
        let i = choose|i: int| 0 <= i < q.len() && q[i] == x;
        if i < r.len() {
            assert(r[i] == x);
        }
    }
}

} // verus!
