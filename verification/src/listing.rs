//! Sets of paths in order.

use vstd::prelude::*;

use crate::buffers;
use crate::maps::{PathMap, PathSet};
use crate::paths;
use crate::paths::path_less;

verus! {

pub open spec fn increasing(q: Seq<Seq<char>>) -> bool {
    forall|i: int, j: int| 0 <= i < j < q.len() ==> paths::path_lt(#[trigger] q[i], #[trigger] q[j])
}

/// `q` holds the paths of `s`, each once, in order.
pub open spec fn is_listing(q: Seq<Seq<char>>, s: Set<Seq<char>>) -> bool {
    &&& increasing(q)
    &&& forall|p: Seq<char>| #[trigger] s.contains(p) <==> q.contains(p)
}

/// The paths of `s` in order.
pub open spec fn listing(s: Set<Seq<char>>) -> Seq<Seq<char>> {
    choose|q: Seq<Seq<char>>| is_listing(q, s)
}

/// There is only one way to list a set in order.
pub proof fn listing_is_unique(a: Seq<Seq<char>>, b: Seq<Seq<char>>)
    requires
        increasing(a),
        increasing(b),
        forall|p: Seq<char>| #[trigger] a.contains(p) <==> b.contains(p),
    ensures
        a == b,
    decreases a.len(),
{
    if a.len() == 0 {
        if b.len() > 0 {
            assert(b.contains(b[0]));
            assert(a.contains(b[0]));
        }
        assert(a =~= b);
    } else {
        assert(a.contains(a[0]));
        assert(b.contains(a[0]));
        let i = choose|i: int| 0 <= i < b.len() && b[i] == a[0];
        assert(b.contains(b[0]));
        assert(a.contains(b[0]));
        let j = choose|j: int| 0 <= j < a.len() && a[j] == b[0];
        paths::path_order_is_total(a[0], b[0]);
        if i > 0 {
            assert(paths::path_lt(b[0], b[i]));
            if j > 0 {
                assert(paths::path_lt(a[0], a[j]));
            }
        }
        assert(a[0] == b[0]);
        let a1 = a.skip(1);
        let b1 = b.skip(1);
        assert forall|x: int, y: int| 0 <= x < y < a1.len() implies paths::path_lt(
            #[trigger] a1[x],
            #[trigger] a1[y],
        ) by {
            assert(paths::path_lt(a[x + 1], a[y + 1]));
        }
        assert forall|x: int, y: int| 0 <= x < y < b1.len() implies paths::path_lt(
            #[trigger] b1[x],
            #[trigger] b1[y],
        ) by {
            assert(paths::path_lt(b[x + 1], b[y + 1]));
        }
        assert forall|p: Seq<char>| #[trigger] a1.contains(p) <==> b1.contains(p) by {
            lemma_tail(a, p);
            lemma_tail(b, p);
        }
        listing_is_unique(a1, b1);
        assert(a =~= seq![a[0]] + a1);
        assert(b =~= seq![b[0]] + b1);
    }
}

proof fn lemma_tail(a: Seq<Seq<char>>, p: Seq<char>)
    requires
        increasing(a),
        a.len() > 0,
    ensures
        a.skip(1).contains(p) <==> a.contains(p) && p != a[0],
{
    let u = a.skip(1);
    if u.contains(p) {
        let i = choose|i: int| 0 <= i < u.len() && u[i] == p;
        assert(a[i + 1] == p);
        assert(paths::path_lt(a[0], a[i + 1]));
        paths::path_order_is_total(a[0], a[i + 1]);
    }
    if a.contains(p) && p != a[0] {
        let i = choose|i: int| 0 <= i < a.len() && a[i] == p;
        assert(u[i - 1] == p);
    }
}

proof fn lemma_insert(q: Seq<Seq<char>>, x: Seq<char>) -> (r: Seq<Seq<char>>)
    requires
        increasing(q),
        !q.contains(x),
    ensures
        increasing(r),
        forall|p: Seq<char>| #[trigger] r.contains(p) <==> p == x || q.contains(p),
        r.len() > 0,
        r[r.len() - 1] == x || (q.len() > 0 && r[r.len() - 1] == q[q.len() - 1]),
    decreases q.len(),
{
    if q.len() == 0 {
        let r = seq![x];
        assert(r[0] == x);
        r
    } else {
        let last = q[q.len() - 1];
        assert(q.contains(last));
        paths::path_order_is_total(last, x);
        if paths::path_lt(last, x) {
            let r = q.push(x);
            assert forall|i: int, j: int| 0 <= i < j < r.len() implies paths::path_lt(
                #[trigger] r[i],
                #[trigger] r[j],
            ) by {
                if j == q.len() && i < q.len() - 1 {
                    assert(paths::path_lt(q[i], last));
                    paths::path_order_is_transitive(q[i], last, x);
                }
            }
            lemma_push(q, x);
            r
        } else {
            let d = q.drop_last();
            assert(q =~= d.push(last));
            lemma_push(d, last);
            let r1 = lemma_insert(d, x);
            let r = r1.push(last);
            lemma_push(r1, last);
            let top = r1[r1.len() - 1];
            assert(paths::path_lt(top, last)) by {
                if top != x {
                    assert(paths::path_lt(q[q.len() - 2], last));
                }
            }
            assert forall|i: int, j: int| 0 <= i < j < r.len() implies paths::path_lt(
                #[trigger] r[i],
                #[trigger] r[j],
            ) by {
                if j == r1.len() && i < r1.len() - 1 {
                    assert(paths::path_lt(r1[i], top));
                    paths::path_order_is_transitive(r1[i], top, last);
                }
            }
            r
        }
    }
}

proof fn lemma_push(q: Seq<Seq<char>>, x: Seq<char>)
    ensures
        forall|p: Seq<char>| #[trigger] q.push(x).contains(p) <==> p == x || q.contains(p),
{
    let r = q.push(x);
    assert forall|p: Seq<char>| #[trigger] r.contains(p) <==> p == x || q.contains(p) by {
        if q.contains(p) {
            let i = choose|i: int| 0 <= i < q.len() && q[i] == p;
            assert(r[i] == p);
        }
        if p == x {
            assert(r[q.len() as int] == p);
        }
    }
}

/// Every finite set of paths can be listed in order.
pub proof fn finite_sets_have_a_listing(s: Set<Seq<char>>)
    requires
        s.finite(),
    ensures
        is_listing(listing(s), s),
    decreases s.len(),
{
    let q = if s.len() == 0 {
        let q = Seq::<Seq<char>>::empty();
        assert forall|p: Seq<char>| #[trigger] s.contains(p) <==> q.contains(p) by {}
        q
    } else {
        let x = s.choose();
        finite_sets_have_a_listing(s.remove(x));
        let d = listing(s.remove(x));
        assert(!d.contains(x)) by {
            assert(s.remove(x).contains(x) <==> d.contains(x));
        }
        let q = lemma_insert(d, x);
        assert forall|p: Seq<char>| #[trigger] s.contains(p) <==> q.contains(p) by {
            assert(s.remove(x).contains(p) <==> d.contains(p));
        }
        q
    };
    assert(is_listing(q, s));
}

fn insert_path(out: &mut Vec<String>, k: String)
    requires
        increasing(buffers::string_views(old(out)@)),
        !buffers::string_views(old(out)@).contains(k@),
    ensures
        increasing(buffers::string_views(final(out)@)),
        forall|p: Seq<char>| #[trigger]
            buffers::string_views(final(out)@).contains(p) <==> p == k@
                || buffers::string_views(old(out)@).contains(p),
{
    let ghost q = buffers::string_views(out@);
    let ghost x = k@;
    let n: usize = out.len();
    let mut i: usize = n;
    while i > 0 && path_less(k.as_str(), out[i - 1].as_str())
        invariant
            i <= n,
            n == out.len(),
            q == buffers::string_views(out@),
            x == k@,
            forall|j: int| i <= j < n ==> paths::path_lt(x, #[trigger] q[j]),
        decreases i,
    {
        assert(q[i - 1] == out[i - 1]@);
        i = i - 1;
    }
    proof {
        if i > 0 {
            assert(q[i - 1] == out[i - 1]@);
            assert(q.contains(q[i - 1]));
            paths::path_order_is_total(x, q[i - 1]);
            assert forall|j: int| 0 <= j < i implies paths::path_lt(#[trigger] q[j], x) by {
                if j < i - 1 {
                    assert(paths::path_lt(q[j], q[i - 1]));
                    paths::path_order_is_transitive(q[j], q[i - 1], x);
                }
            }
        }
    }
    out.insert(i, k);
    let ghost r = buffers::string_views(out@);
    assert(r =~= q.insert(i as int, x));
    assert forall|p: Seq<char>| #[trigger] r.contains(p) <==> p == x || q.contains(p) by {
        if r.contains(p) {
            let j = choose|j: int| 0 <= j < r.len() && r[j] == p;
            if j < i {
                assert(q[j] == p);
            } else if j > i {
                assert(q[j - 1] == p);
            }
        }
        if p == x {
            assert(r[i as int] == p);
        } else if q.contains(p) {
            let j = choose|j: int| 0 <= j < q.len() && q[j] == p;
            if j < i {
                assert(r[j] == p);
            } else {
                assert(r[j + 1] == p);
            }
        }
    }
}

fn sort_paths(v: &Vec<String>) -> (out: Vec<String>)
    requires
        forall|i: int, j: int| 0 <= i < j < v.len() ==> v[i]@ != v[j]@,
    ensures
        increasing(buffers::string_views(out@)),
        forall|p: Seq<char>| #[trigger]
            buffers::string_views(out@).contains(p) <==> exists|i: int|
                0 <= i < v.len() && #[trigger] v[i]@ == p,
{
    let mut out: Vec<String> = Vec::new();
    let mut n: usize = 0;
    while n < v.len()
        invariant
            n <= v.len(),
            forall|i: int, j: int| 0 <= i < j < v.len() ==> v[i]@ != v[j]@,
            increasing(buffers::string_views(out@)),
            forall|p: Seq<char>| #[trigger]
                buffers::string_views(out@).contains(p) <==> exists|i: int|
                    0 <= i < n && #[trigger] v[i]@ == p,
        decreases v.len() - n,
    {
        let ghost q = buffers::string_views(out@);
        let k = v[n].clone();
        insert_path(&mut out, k);
        assert forall|p: Seq<char>| #[trigger]
            buffers::string_views(out@).contains(p) implies exists|i: int|
            0 <= i < n + 1 && #[trigger] v[i]@ == p by {
            if p == k@ {
                assert(v[n as int]@ == p);
            } else {
                assert(q.contains(p));
            }
        }
        assert forall|p: Seq<char>|
            (exists|i: int| 0 <= i < n + 1 && #[trigger] v[i]@ == p) implies #[trigger] buffers::string_views(
        out@).contains(p) by {
            let i = choose|i: int| 0 <= i < n + 1 && #[trigger] v[i]@ == p;
            if i < n {
                assert(q.contains(p));
            }
        }
        n = n + 1;
    }
    out
}

/// The keys of a map in order.
pub fn sorted_keys<V>(m: &PathMap<V>) -> (v: Vec<String>)
    ensures
        buffers::string_views(v@) == listing(m.map().dom()),
        is_listing(buffers::string_views(v@), m.map().dom()),
{
    let k = m.keys();
    let out = sort_paths(&k);
    let ghost q = buffers::string_views(out@);
    proof {
        assert(is_listing(q, m.map().dom()));
        let l = listing(m.map().dom());
        assert(is_listing(l, m.map().dom()));
        assert forall|p: Seq<char>| #[trigger] q.contains(p) <==> l.contains(p) by {
            assert(m.map().dom().contains(p) <==> q.contains(p));
        }
        listing_is_unique(q, l);
    }
    out
}

/// The members of a set in order.
pub fn sorted_members(s: &PathSet) -> (v: Vec<String>)
    ensures
        buffers::string_views(v@) == listing(s@),
        is_listing(buffers::string_views(v@), s@),
{
    let k = s.members();
    let out = sort_paths(&k);
    let ghost q = buffers::string_views(out@);
    proof {
        assert(is_listing(q, s@));
        let l = listing(s@);
        assert(is_listing(l, s@));
        assert forall|p: Seq<char>| #[trigger] q.contains(p) <==> l.contains(p) by {
            assert(s@.contains(p) <==> q.contains(p));
        }
        listing_is_unique(q, l);
    }
    out
}

} // verus!
