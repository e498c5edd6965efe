//! Maps and sets keyed by path text.

use vstd::prelude::*;

verus! {

/// A persistent hash map.
#[verifier::external_type_specification]
#[verifier::external_body]
#[verifier::reject_recursive_types(K)]
#[verifier::reject_recursive_types(V)]
#[verifier::reject_recursive_types(S)]
pub struct ExImblHashMap<K, V, S>(imbl::HashMap<K, V, S>);

/// A persistent hash set.
#[verifier::external_type_specification]
#[verifier::external_body]
#[verifier::reject_recursive_types(A)]
#[verifier::reject_recursive_types(S)]
pub struct ExImblHashSet<A, S>(imbl::HashSet<A, S>);

/// What an index map holds: the number stored under each key.
pub uninterp spec fn index_contents(m: imbl::HashMap<String, usize>) -> Map<Seq<char>, usize>;

/// What a path set holds.
pub uninterp spec fn set_contents(s: imbl::HashSet<String>) -> Set<Seq<char>>;

/// `imbl::HashMap::new`: an empty map.
#[verifier::external_body]
fn index_new() -> (m: imbl::HashMap<String, usize>)
    ensures
        index_contents(m).dom() == Set::<Seq<char>>::empty(),
{
    imbl::HashMap::new()
}

/// `imbl::HashMap::get`: the number stored under a key, if there is one.
#[verifier::external_body]
fn index_get(m: &imbl::HashMap<String, usize>, key: &str) -> (r: Option<usize>)
    ensures
        r is Some <==> index_contents(*m).dom().contains(key@),
        r is Some ==> r->0 == index_contents(*m)[key@],
{
    m.get(key).copied()
}

/// `imbl::HashMap::insert`: stores a number under a key, over what was
/// there.
#[verifier::external_body]
fn index_insert(m: &mut imbl::HashMap<String, usize>, key: String, value: usize)
    ensures
        index_contents(*final(m)) == index_contents(*old(m)).insert(key@, value),
{
    m.insert(key, value);
}

/// `imbl::HashMap::remove`: drops a key and what is stored under it.
#[verifier::external_body]
fn index_remove(m: &mut imbl::HashMap<String, usize>, key: &str)
    ensures
        index_contents(*final(m)) == index_contents(*old(m)).remove(key@),
{
    m.remove(key);
}

/// `imbl::HashSet::new`: an empty set.
#[verifier::external_body]
fn set_new() -> (s: imbl::HashSet<String>)
    ensures
        set_contents(s) == Set::<Seq<char>>::empty(),
{
    imbl::HashSet::new()
}

/// `imbl::HashSet::contains`.
#[verifier::external_body]
fn set_has(s: &imbl::HashSet<String>, key: &str) -> (r: bool)
    ensures
        r == set_contents(*s).contains(key@),
{
    s.contains(key)
}

/// `imbl::HashSet::insert`.
#[verifier::external_body]
fn set_insert(s: &mut imbl::HashSet<String>, key: String)
    ensures
        set_contents(*final(s)) == set_contents(*old(s)).insert(key@),
{
    s.insert(key);
}

/// `imbl::HashSet::remove`.
#[verifier::external_body]
fn set_remove(s: &mut imbl::HashSet<String>, key: &str)
    ensures
        set_contents(*final(s)) == set_contents(*old(s)).remove(key@),
{
    s.remove(key);
}

/// `imbl::HashSet::iter`: every member once, in no stated order.
#[verifier::external_body]
fn set_members(s: &imbl::HashSet<String>) -> (v: Vec<String>)
    ensures
        forall|k: Seq<char>| #[trigger]
            set_contents(*s).contains(k) <==> exists|i: int| 0 <= i < v.len() && #[trigger] v[i]@ == k,
        forall|i: int, j: int| 0 <= i < j < v.len() ==> v[i]@ != v[j]@,
{
    s.iter().cloned().collect()
}

/// One entry of a `PathMap`.
pub struct Slot<V> {
    pub key: String,
    pub value: V,
}

/// A map from path text to values. The values lie in a vector; an index
/// finds the place of a key in it.
pub struct PathMap<V> {
    index: imbl::HashMap<String, usize>,
    slots: Vec<Slot<V>>,
}

impl<V> PathMap<V> {
    #[verifier::type_invariant]
    spec fn wf(self) -> bool {
        &&& forall|k: Seq<char>| #[trigger]
            index_contents(self.index).dom().contains(k) ==> index_contents(self.index)[k]
                < self.slots.len() && self.slots[index_contents(self.index)[k] as int].key@ == k
        &&& forall|i: int|
            0 <= i < self.slots.len() ==> index_contents(self.index).dom().contains(
                (#[trigger] self.slots[i]).key@,
            ) && index_contents(self.index)[self.slots[i].key@] == i
    }

    /// The contents, as a map.
    pub closed spec fn map(self) -> Map<Seq<char>, V> {
        Map::new(
            |k: Seq<char>| index_contents(self.index).dom().contains(k),
            |k: Seq<char>| self.slots[index_contents(self.index)[k] as int].value,
        )
    }

    pub fn new() -> (m: Self)
        ensures
            m.map() == Map::<Seq<char>, V>::empty(),
    {
        let m = PathMap { index: index_new(), slots: Vec::new() };
        assert(m.map() =~= Map::<Seq<char>, V>::empty());
        m
    }

    pub fn contains(&self, key: &str) -> (r: bool)
        ensures
            r == self.map().dom().contains(key@),
    {
        index_get(&self.index, key).is_some()
    }

    pub fn get(&self, key: &str) -> (r: Option<&V>)
        ensures
            r is Some <==> self.map().dom().contains(key@),
            r is Some ==> *r->0 == self.map()[key@],
    {
        proof {
            use_type_invariant(self);
        }
        match index_get(&self.index, key) {
            Some(i) => Some(&self.slots[i].value),
            None => None,
        }
    }

    /// Stores `value` under `key`, over what was there.
    pub fn insert(&mut self, key: String, value: V)
        ensures
            final(self).map() == old(self).map().insert(key@, value),
    {
        let mut whole = PathMap::new();
        std::mem::swap(self, &mut whole);
        proof {
            use_type_invariant(&whole);
        }
        let ghost before = whole;
        let PathMap { index, slots } = whole;
        let mut index = index;
        let mut slots = slots;
        match index_get(&index, key.as_str()) {
            Some(i) => {
                slots.set(i, Slot { key, value });
            },
            None => {
                let n: usize = slots.len();
                let at = key.clone();
                slots.push(Slot { key, value });
                index_insert(&mut index, at, n);
            },
        }
        *self = PathMap { index, slots };
        assert(self.map() =~= before.map().insert(key@, value));
    }

    /// Takes the value under `key` out.
    pub fn remove(&mut self, key: &str) -> (r: Option<V>)
        ensures
            final(self).map() == old(self).map().remove(key@),
            r is Some <==> old(self).map().dom().contains(key@),
            r is Some ==> r->0 == old(self).map()[key@],
    {
        let mut whole = PathMap::new();
        std::mem::swap(self, &mut whole);
        proof {
            use_type_invariant(&whole);
        }
        let ghost before = whole;
        let PathMap { index, slots } = whole;
        let mut index = index;
        let mut slots = slots;
        match index_get(&index, key) {
            Some(i) => {
                index_remove(&mut index, key);
                let gone = slots.swap_remove(i);
                if i < slots.len() {
                    let moved = slots[i].key.clone();
                    index_insert(&mut index, moved, i);
                }
                *self = PathMap { index, slots };
                assert(self.map() =~= before.map().remove(key@));
                Some(gone.value)
            },
            None => {
                *self = PathMap { index, slots };
                assert(self.map() =~= before.map().remove(key@));
                None
            },
        }
    }

    /// Every key once, in no particular order.
    pub fn keys(&self) -> (v: Vec<String>)
        ensures
            forall|k: Seq<char>| #[trigger]
                self.map().dom().contains(k) <==> exists|i: int|
                    0 <= i < v.len() && #[trigger] v[i]@ == k,
            forall|i: int, j: int| 0 <= i < j < v.len() ==> v[i]@ != v[j]@,
    {
        proof {
            use_type_invariant(self);
        }
        let mut v: Vec<String> = Vec::new();
        let mut i: usize = 0;
        while i < self.slots.len()
            invariant
                i <= self.slots.len(),
                v.len() == i,
                forall|j: int| 0 <= j < i ==> v[j]@ == self.slots[j].key@,
            decreases self.slots.len() - i,
        {
            v.push(self.slots[i].key.clone());
            i = i + 1;
        }
        assert forall|k: Seq<char>| #[trigger] self.map().dom().contains(k) implies exists|i: int|
            0 <= i < v.len() && #[trigger] v[i]@ == k by {
            let p = index_contents(self.index)[k] as int;
            assert(v[p]@ == self.slots[p].key@);
        }
        assert forall|k: Seq<char>| (exists|i: int| 0 <= i < v.len() && #[trigger] v[i]@ == k) implies
            #[trigger] self.map().dom().contains(k) by {
            let p = choose|i: int| 0 <= i < v.len() && #[trigger] v[i]@ == k;
            assert(self.slots[p].key@ == k);
        }
        assert forall|i: int, j: int| 0 <= i < j < v.len() implies v[i]@ != v[j]@ by {
            assert(self.slots[i].key@ == v[i]@);
            assert(self.slots[j].key@ == v[j]@);
        }
        v
    }

    /// How many keys there are.
    pub fn len(&self) -> (n: usize)
        ensures
            self.map().dom().finite(),
            n == self.map().dom().len(),
    {
        proof {
            use_type_invariant(self);
            let q = Seq::new(self.slots.len() as nat, |i: int| self.slots[i].key@);
            assert forall|i: int, j: int| 0 <= i < q.len() && 0 <= j < q.len() && i
                != j implies q[i] != q[j] by {
                assert(self.slots[i].key@ == q[i]);
                assert(self.slots[j].key@ == q[j]);
            }
            q.unique_seq_to_set();
            assert(self.map().dom() =~= q.to_set()) by {
                assert forall|k: Seq<char>| self.map().dom().contains(k) implies q.contains(k) by {
                    assert(q[index_contents(self.index)[k] as int] == k);
                }
                assert forall|k: Seq<char>| q.contains(k) implies self.map().dom().contains(k) by {
                    let i = choose|i: int| 0 <= i < q.len() && q[i] == k;
                    assert(self.slots[i].key@ == k);
                }
            }
        }
        self.slots.len()
    }

    pub fn is_empty(&self) -> (r: bool)
        ensures
            r <==> self.map() == Map::<Seq<char>, V>::empty(),
    {
        proof {
            use_type_invariant(self);
        }
        let r: bool = self.slots.len() == 0;
        if r {
            assert(self.map() =~= Map::<Seq<char>, V>::empty());
        } else {
            assert(self.map().dom().contains(self.slots[0].key@));
        }
        r
    }
}

/// A set of paths.
pub struct PathSet {
    inner: imbl::HashSet<String>,
}

impl View for PathSet {
    type V = Set<Seq<char>>;

    closed spec fn view(&self) -> Set<Seq<char>> {
        set_contents(self.inner)
    }
}

impl PathSet {
    pub fn new() -> (s: Self)
        ensures
            s@ == Set::<Seq<char>>::empty(),
    {
        PathSet { inner: set_new() }
    }

    pub fn contains(&self, key: &str) -> (r: bool)
        ensures
            r == self@.contains(key@),
    {
        set_has(&self.inner, key)
    }

    pub fn insert(&mut self, key: String)
        ensures
            final(self)@ == old(self)@.insert(key@),
    {
        set_insert(&mut self.inner, key);
    }

    pub fn remove(&mut self, key: &str)
        ensures
            final(self)@ == old(self)@.remove(key@),
    {
        set_remove(&mut self.inner, key);
    }

    /// Every member once, in no particular order.
    pub fn members(&self) -> (v: Vec<String>)
        ensures
            forall|k: Seq<char>| #[trigger]
                self@.contains(k) <==> exists|i: int| 0 <= i < v.len() && #[trigger] v[i]@ == k,
            forall|i: int, j: int| 0 <= i < j < v.len() ==> v[i]@ != v[j]@,
    {
        set_members(&self.inner)
    }
}

} // verus!
