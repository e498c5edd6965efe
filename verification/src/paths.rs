//! Canonical paths.

use vstd::prelude::*;

use crate::chars::same_text;

verus! {

/// An absolute path with every link resolved, as text with `/` between its
/// components.
pub struct CanonPath {
    pub text: String,
}

impl View for CanonPath {
    type V = Seq<char>;

    open spec fn view(&self) -> Seq<char> {
        self.text@
    }
}

impl CanonPath {
    pub fn new(s: &str) -> (p: CanonPath)
        ensures
            p@ == s@,
    {
        CanonPath { text: s.to_owned() }
    }

    pub fn copy(&self) -> (p: CanonPath)
        ensures
            p == *self,
    {
        CanonPath { text: self.text.clone() }
    }

    pub fn as_str(&self) -> (s: &str)
        ensures
            s@ == self@,
    {
        self.text.as_str()
    }

    pub fn same(&self, other: &CanonPath) -> (r: bool)
        ensures
            r == (self@ == other@),
    {
        self.text == other.text
    }
}

/// The last index below `n` where a path has a `/`, or -1.
pub open spec fn last_slash(p: Seq<char>, n: int) -> int
    decreases n,
{
    if n <= 0 || n > p.len() {
        -1
    } else if p[n - 1] == '/' {
        n - 1
    } else {
        last_slash(p, n - 1)
    }
}

/// The last component of a path: what stands behind the last `/`.
pub open spec fn base_name(p: Seq<char>) -> Seq<char> {
    p.subrange(last_slash(p, p.len() as int) + 1, p.len() as int)
}

/// The path without its last component. The root has no parent.
pub open spec fn parent_of(p: Seq<char>) -> Option<Seq<char>> {
    let s = last_slash(p, p.len() as int);
    if s < 0 || p.len() <= 1 {
        None
    } else if s == 0 {
        Some(p.subrange(0, 1))
    } else {
        Some(p.subrange(0, s))
    }
}

/// `p` is `dir` or lies below it.
pub open spec fn under(p: Seq<char>, dir: Seq<char>) -> bool {
    ||| p == dir
    ||| dir == seq!['/'] && p.len() > 0 && p[0] == '/'
    ||| p.len() > dir.len() && p.subrange(0, dir.len() as int) == dir && p[dir.len() as int] == '/'
}

pub proof fn lemma_last_slash(p: Seq<char>, n: int)
    requires
        0 <= n <= p.len(),
    ensures
        -1 <= last_slash(p, n) < n || n == 0,
        -1 <= last_slash(p, n),
        last_slash(p, n) < p.len(),
        last_slash(p, n) >= 0 ==> p[last_slash(p, n)] == '/',
        forall|i: int| last_slash(p, n) < i < n ==> p[i] != '/',
    decreases n,
{
    if n > 0 && p[n - 1] != '/' {
        lemma_last_slash(p, n - 1);
    }
}

/// The place behind the last `/`.
pub fn after_last_slash(s: &str) -> (r: usize)
    ensures
        r == last_slash(s@, s@.len() as int) + 1,
        r <= s@.len(),
{
    let mut n: usize = s.unicode_len();
    while n > 0
        invariant
            n <= s@.len(),
            last_slash(s@, s@.len() as int) == last_slash(s@, n as int),
        decreases n,
    {
        if s.get_char(n - 1) == '/' {
            return n;
        }
        n = n - 1;
    }
    0
}

impl CanonPath {
    /// The last component.
    pub fn file_name(&self) -> (s: String)
        ensures
            s@ == base_name(self@),
    {
        let n: usize = self.text.as_str().unicode_len();
        let k: usize = after_last_slash(self.text.as_str());
        crate::chars::substring(self.text.as_str(), k, n)
    }

    /// The path without its last component.
    pub fn parent(&self) -> (r: Option<CanonPath>)
        ensures
            r is Some <==> parent_of(self@) is Some,
            r is Some ==> r->0@ == parent_of(self@)->0,
    {
        let n: usize = self.text.as_str().unicode_len();
        let k: usize = after_last_slash(self.text.as_str());
        if k == 0 || n <= 1 {
            None
        } else if k == 1 {
            Some(CanonPath { text: crate::chars::substring(self.text.as_str(), 0, 1) })
        } else {
            Some(CanonPath { text: crate::chars::substring(self.text.as_str(), 0, k - 1) })
        }
    }
}

/// Whether `p` is `dir` or lies below it.
pub fn is_under(p: &str, dir: &str) -> (r: bool)
    ensures
        r == under(p@, dir@),
{
    if same_text(p, dir) {
        return true;
    }
    let n: usize = p.unicode_len();
    let d: usize = dir.unicode_len();
    if d == 1 && dir.get_char(0) == '/' && n > 0 && p.get_char(0) == '/' {
        assert(dir@ =~= seq!['/']);
        return true;
    }
    assert(!(dir@ == seq!['/'] && p@.len() > 0 && p@[0] == '/'));
    if n <= d {
        return false;
    }
    let head = p.substring_char(0, d);
    same_text(head, dir) && p.get_char(d) == '/'
}

/// The order of characters in paths: `/` comes first, so that paths are
/// ordered component by component.
pub open spec fn before(x: char, y: char) -> bool {
    x != y && (x == '/' || (y != '/' && x < y))
}

/// The order of paths.
pub open spec fn path_lt(a: Seq<char>, b: Seq<char>) -> bool
    decreases a.len(),
{
    if b.len() == 0 {
        false
    } else if a.len() == 0 {
        true
    } else if a[0] == b[0] {
        path_lt(a.skip(1), b.skip(1))
    } else {
        before(a[0], b[0])
    }
}

/// Of two different paths exactly one comes first.
pub proof fn path_order_is_total(a: Seq<char>, b: Seq<char>)
    ensures
        a == b ==> !path_lt(a, b) && !path_lt(b, a),
        a != b ==> path_lt(a, b) != path_lt(b, a),
    decreases a.len(),
{
    if a.len() > 0 && b.len() > 0 && a[0] == b[0] {
        path_order_is_total(a.skip(1), b.skip(1));
        if a.skip(1) == b.skip(1) {
            assert(a =~= seq![a[0]] + a.skip(1));
            assert(b =~= seq![b[0]] + b.skip(1));
        }
    } else if a.len() == 0 && b.len() == 0 {
        assert(a =~= b);
    }
}

/// The order of paths is transitive.
pub proof fn path_order_is_transitive(a: Seq<char>, b: Seq<char>, c: Seq<char>)
    requires
        path_lt(a, b),
        path_lt(b, c),
    ensures
        path_lt(a, c),
    decreases a.len(),
{
    if a.len() > 0 && b.len() > 0 && c.len() > 0 {
        if a[0] == b[0] && b[0] == c[0] {
            path_order_is_transitive(a.skip(1), b.skip(1), c.skip(1));
        }
    }
}

/// Whether one path comes before another.
pub fn path_less(a: &str, b: &str) -> (r: bool)
    ensures
        r == path_lt(a@, b@),
{
    let n: usize = a.unicode_len();
    let m: usize = b.unicode_len();
    let mut i: usize = 0;
    assert(a@.skip(0) =~= a@);
    assert(b@.skip(0) =~= b@);
    while i < n && i < m
        invariant
            i <= n,
            i <= m,
            n == a@.len(),
            m == b@.len(),
            path_lt(a@, b@) == path_lt(a@.skip(i as int), b@.skip(i as int)),
        decreases n - i,
    {
        let x = a.get_char(i);
        let y = b.get_char(i);
        assert(a@.skip(i as int)[0] == x);
        assert(b@.skip(i as int)[0] == y);
        assert(a@.skip(i as int).skip(1) =~= a@.skip(i + 1));
        assert(b@.skip(i as int).skip(1) =~= b@.skip(i + 1));
        if x != y {
            return x == '/' || (y != '/' && x < y);
        }
        i = i + 1;
    }
    i < m
}

// ---------------------------------------------------------------------
// Laws
// ---------------------------------------------------------------------

/// A path is its directory, a slash and a name without slashes; a file at
/// the top has the root as its directory, and a bare name has none.
pub proof fn a_path_is_directory_and_name(p: Seq<char>)
    requires
        p.len() > 1,
    ensures
        forall|i: int| 0 <= i < base_name(p).len() ==> base_name(p)[i] != '/',
        (forall|i: int| 0 <= i < p.len() ==> p[i] != '/') <==> parent_of(p) is None,
        parent_of(p) is None ==> base_name(p) == p,
        parent_of(p) matches Some(d) ==> (if d == seq!['/'] {
            p == d + base_name(p) || p == d + seq!['/'] + base_name(p)
        } else {
            p == d + seq!['/'] + base_name(p)
        }),
{
    let n = p.len() as int;
    let s = last_slash(p, n);
    lemma_slash_place(p, n);
    if s >= 0 {
        assert(p[s] == '/');
        if s == 0 {
            assert(p =~= p.subrange(0, 1) + base_name(p));
            assert(p.subrange(0, 1) =~= seq!['/']);
        } else {
            assert(p =~= p.subrange(0, s) + seq!['/'] + base_name(p));
        }
    } else {
        assert(base_name(p) =~= p);
    }
}

proof fn lemma_slash_place(p: Seq<char>, n: int)
    requires
        0 <= n <= p.len(),
    ensures
        -1 <= last_slash(p, n) < n,
        last_slash(p, n) >= 0 ==> p[last_slash(p, n)] == '/',
        forall|i: int| last_slash(p, n) < i < n ==> p[i] != '/',
    decreases n,
{
    if n > 0 {
        lemma_slash_place(p, n - 1);
    }
}

/// A path lies under a directory if it goes on behind it with a slash, or is
/// the directory itself; everything lies under the root.
pub proof fn paths_lie_under_their_directories(dir: Seq<char>, rest: Seq<char>)
    ensures
        under(dir, dir),
        under(dir + seq!['/'] + rest, dir),
        under(seq!['/'] + rest, seq!['/']),
        rest.len() > 0 && rest[0] != '/' && dir != seq!['/'] ==> !under(dir + rest, dir),
{
    let p = dir + seq!['/'] + rest;
    assert(p.subrange(0, dir.len() as int) =~= dir);
    let q = dir + rest;
    if rest.len() > 0 && rest[0] != '/' && dir != seq!['/'] {
        assert(q[dir.len() as int] == rest[0]);
        assert(q.len() > dir.len());
    }
}

} // verus!
