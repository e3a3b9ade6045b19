//! A cache keyed by paths, with lookup that falls back to the nearest stored
//! ancestor and then to a cache-wide default.

use vstd::prelude::*;
use crate::identifier::Identifier;

verus! {

/// A key shaped like a path: its view is the sequence of its segments, and
/// its parent is the path without the last segment.
pub trait CacheKey: Sized + View<V = Seq<Seq<char>>> {
    fn parent(&self) -> (r: Option<Self>)
        ensures
            self@.len() == 0 <==> r is None,
            r matches Some(p) ==> p@ == self@.drop_last(),
    ;

    fn is_child_of(&self, parent: &Self) -> (r: bool)
        ensures
            r == (self@.len() > 0 && self@.drop_last() == parent@),
    ;

    fn same_key(&self, other: &Self) -> (r: bool)
        ensures
            r == (self@ == other@),
    ;

    fn clone_key(&self) -> (r: Self)
        ensures
            r@ == self@,
    ;
}

impl CacheKey for Identifier {
    fn parent(&self) -> (r: Option<Self>) {
        Identifier::parent(self)
    }

    fn is_child_of(&self, parent: &Self) -> (r: bool) {
        Identifier::is_child_of(self, parent)
    }

    fn same_key(&self, other: &Self) -> (r: bool) {
        self.0.eq(&other.0)
    }

    fn clone_key(&self) -> (r: Self) {
        self.clone()
    }
}

/// The map that a list of (key, value) entries stands for; a later entry
/// for the same key would win, though a well-formed list has none.
pub open spec fn entries_map<K: View<V = Seq<Seq<char>>>, V>(s: Seq<(K, V)>) -> Map<
    Seq<Seq<char>>,
    V,
>
    decreases s.len(),
{
    if s.len() == 0 {
        Map::empty()
    } else {
        entries_map(s.drop_last()).insert(s.last().0@, s.last().1)
    }
}

/// No two entries share a key.
pub open spec fn keys_unique<K: View<V = Seq<Seq<char>>>, V>(s: Seq<(K, V)>) -> bool {
    forall|i: int, j: int| 0 <= i < j < s.len() ==> s[i].0@ != s[j].0@
}

/// The value that hierarchical lookup finds for `k`: the value stored at the
/// longest prefix of `k` that has one (`k` itself first), else the default.
pub open spec fn resolve<V>(m: Map<Seq<Seq<char>>, V>, default: Option<V>, k: Seq<Seq<char>>) -> Option<V>
    decreases k.len(),
{
    if m.contains_key(k) {
        Some(m[k])
    } else if k.len() == 0 {
        default
    } else {
        resolve(m, default, k.drop_last())
    }
}

proof fn lemma_entries_map_index<K: View<V = Seq<Seq<char>>>, V>(s: Seq<(K, V)>, i: int)
    requires
        keys_unique(s),
        0 <= i < s.len(),
    ensures
        entries_map(s).contains_key(s[i].0@),
        entries_map(s)[s[i].0@] == s[i].1,
    decreases s.len(),
{
    if i < s.len() - 1 {
        let t = s.drop_last();
        assert(keys_unique(t));
        assert(t[i] == s[i]);
        lemma_entries_map_index(t, i);
    }
}

proof fn lemma_entries_map_absent<K: View<V = Seq<Seq<char>>>, V>(s: Seq<(K, V)>, k: Seq<Seq<char>>)
    requires
        forall|i: int| 0 <= i < s.len() ==> (#[trigger] s[i]).0@ != k,
    ensures
        !entries_map(s).contains_key(k),
    decreases s.len(),
{
    if s.len() > 0 {
        let t = s.drop_last();
        assert forall|i: int| 0 <= i < t.len() implies (#[trigger] t[i]).0@ != k by {
            assert(t[i] == s[i]);
        }
        lemma_entries_map_absent(t, k);
    }
}

proof fn lemma_entries_map_update<K: View<V = Seq<Seq<char>>>, V>(
    s: Seq<(K, V)>,
    i: int,
    e: (K, V),
)
    requires
        keys_unique(s),
        0 <= i < s.len(),
        s[i].0@ == e.0@,
    ensures
        keys_unique(s.update(i, e)),
        entries_map(s.update(i, e)) == entries_map(s).insert(e.0@, e.1),
    decreases s.len(),
{
    let u = s.update(i, e);
    assert(keys_unique(u));
    if i == s.len() - 1 {
        assert(u.drop_last() == s.drop_last());
    } else {
        let t = s.drop_last();
        assert(keys_unique(t));
        lemma_entries_map_update(t, i, e);
        assert(u.drop_last() == t.update(i, e));
        assert(u.last() == s.last());
        assert(s.last().0@ != e.0@);
        assert(entries_map(u) =~= entries_map(s).insert(e.0@, e.1));
    }
}

/// A cache from path-shaped keys to values, with a cache-wide default and
/// lookup that falls back to the nearest stored ancestor.
pub struct Cache<K: CacheKey, V: Copy> {
    entries: Vec<(K, V)>,
    default_value: Option<V>,
}

impl<K: CacheKey, V: Copy> View for Cache<K, V> {
    type V = Map<Seq<Seq<char>>, V>;

    closed spec fn view(&self) -> Map<Seq<Seq<char>>, V> {
        entries_map(self.entries@)
    }
}

impl<K: CacheKey, V: Copy> Cache<K, V> {
    pub closed spec fn wf(&self) -> bool {
        keys_unique(self.entries@)
    }

    /// The cache-wide fallback value.
    pub closed spec fn default_spec(&self) -> Option<V> {
        self.default_value
    }

    /// The number of keys stored.
    pub closed spec fn count(&self) -> nat {
        self.entries@.len()
    }

    /// What hierarchical lookup yields for `k`.
    pub open spec fn lookup(&self, k: Seq<Seq<char>>) -> Option<V> {
        resolve(self@, self.default_spec(), k)
    }

    pub proof fn lemma_count_is_size(&self)
        requires
            self.wf(),
        ensures
            self@.dom().finite(),
            self@.dom().len() == self.count(),
    {
        lemma_count_is_size_of(self.entries@);
    }

    pub fn new() -> (r: Self)
        ensures
            r.wf(),
            r@ == Map::<Seq<Seq<char>>, V>::empty(),
            r.default_spec() is None,
            r.count() == 0,
    {
        Cache { entries: Vec::new(), default_value: None }
    }

    pub fn new_with_default(default: V) -> (r: Self)
        ensures
            r.wf(),
            r@ == Map::<Seq<Seq<char>>, V>::empty(),
            r.default_spec() == Some(default),
            r.count() == 0,
    {
        Cache { entries: Vec::new(), default_value: Some(default) }
    }

    /// The number of keys stored.
    pub fn len(&self) -> (r: usize)
        ensures
            r == self.count(),
    {
        self.entries.len()
    }

    /// The cache-wide fallback value.
    pub fn default_value(&self) -> (r: Option<&V>)
        ensures
            r is Some <==> self.default_spec() is Some,
            r is Some ==> *r->0 == self.default_spec()->0,
    {
        match &self.default_value {
            Some(v) => Some(v),
            None => None,
        }
    }

    fn find(&self, key: &K) -> (r: Option<usize>)
        requires
            self.wf(),
        ensures
            r matches Some(i) ==> i < self.entries@.len() && self.entries@[i as int].0@ == key@,
            r is Some <==> self@.contains_key(key@),
    {
        let n = self.entries.len();
        let mut i: usize = 0;
        while i < n
            invariant
                self.wf(),
                n == self.entries@.len(),
                i <= n,
                forall|j: int| 0 <= j < i ==> (#[trigger] self.entries@[j]).0@ != key@,
            decreases n - i,
        {
            if self.entries[i].0.same_key(key) {
                proof {
                    lemma_entries_map_index(self.entries@, i as int);
                }
                return Some(i);
            }
            i = i + 1;
        }
        proof {
            lemma_entries_map_absent(self.entries@, key@);
        }
        None
    }

    /// Exact-key lookup; never falls back and never changes the cache.
    pub fn get(&self, key: &K) -> (r: Option<&V>)
        requires
            self.wf(),
        ensures
            r is Some <==> self@.contains_key(key@),
            r is Some ==> *r->0 == self@[key@],
    {
        match self.find(key) {
            Some(i) => {
                proof {
                    lemma_entries_map_index(self.entries@, i as int);
                }
                Some(&self.entries[i].1)
            },
            None => None,
        }
    }

    /// The value at `key`, else at its nearest stored ancestor, else the
    /// default.
    pub fn get_recursive(&self, key: &K) -> (r: Option<&V>)
        requires
            self.wf(),
        ensures
            r is Some <==> self.lookup(key@) is Some,
            r is Some ==> *r->0 == self.lookup(key@)->0,
    {
        match self.get(key) {
            Some(v) => Some(v),
            None => {
                let mut c = key.parent();
                while c.is_some()
                    invariant
                        self.wf(),
                        c is Some ==> self.lookup(key@) == self.lookup(c->0@),
                        c is None ==> self.lookup(key@) == self.default_spec(),
                    decreases (if c is Some { c->0@.len() + 1 } else { 0 }),
                {
                    let p = c.unwrap();
                    match self.get(&p) {
                        Some(v) => {
                            return Some(v);
                        },
                        None => {
                            c = p.parent();
                        },
                    }
                }
                match &self.default_value {
                    Some(v) => Some(v),
                    None => None,
                }
            },
        }
    }

    /// Replaces the default; returns the one it replaced.
    pub fn set_default(&mut self, value: V) -> (r: Option<V>)
        requires
            old(self).wf(),
        ensures
            final(self).wf(),
            final(self)@ == old(self)@,
            final(self).count() == old(self).count(),
            final(self).default_spec() == Some(value),
            r == old(self).default_spec(),
    {
        let r = self.default_value;
        self.default_value = Some(value);
        r
    }

    /// Stores `value` at exactly `key`; returns the value it replaced.
    pub fn set(&mut self, key: K, value: V) -> (r: Option<V>)
        requires
            old(self).wf(),
        ensures
            final(self).wf(),
            final(self)@ == old(self)@.insert(key@, value),
            final(self).default_spec() == old(self).default_spec(),
            r is Some <==> old(self)@.contains_key(key@),
            r is Some ==> r->0 == old(self)@[key@],
            final(self).count() == old(self).count() + (if r is Some { 0int } else { 1int }),
    {
        match self.find(&key) {
            Some(i) => {
                proof {
                    lemma_entries_map_index(self.entries@, i as int);
                    lemma_entries_map_update(self.entries@, i as int, (key, value));
                }
                let prev = self.entries[i].1;
                self.entries.set(i, (key, value));
                Some(prev)
            },
            None => {
                let ghost k = key@;
                let ghost before = self.entries@;
                self.entries.push((key, value));
                proof {
                    assert(self.entries@.drop_last() == before);
                    assert forall|a: int, b: int|
                        0 <= a < b < self.entries@.len() implies self.entries@[a].0@
                        != self.entries@[b].0@ by {
                        if b == self.entries@.len() - 1 {
                            assert(self.entries@[a] == before[a]);
                            if before[a].0@ == k {
                                lemma_entries_map_index(before, a);
                            }
                        } else {
                            assert(self.entries@[a] == before[a]);
                            assert(self.entries@[b] == before[b]);
                        }
                    }
                }
                None
            },
        }
    }

    /// The value at exactly `key`; if there is none, stores the value that
    /// `init` makes and returns it.
    pub fn get_or_initialize_with<F: FnOnce() -> V>(&mut self, key: K, init: F) -> (r: &V)
        requires
            old(self).wf(),
            !old(self)@.contains_key(key@) ==> init.requires(()),
        ensures
            final(self).wf(),
            final(self).default_spec() == old(self).default_spec(),
            old(self)@.contains_key(key@) ==> final(self)@ == old(self)@ && *r == old(self)@[key@],
            !old(self)@.contains_key(key@) ==> init.ensures((), *r) && final(self)@ == old(
                self,
            )@.insert(key@, *r),
    {
        match self.find(&key) {
            Some(i) => {
                proof {
                    lemma_entries_map_index(self.entries@, i as int);
                }
                &self.entries[i].1
            },
            None => {
                let value = init();
                let probe = key.clone_key();
                self.set(key, value);
                self.get(&probe).unwrap()
            },
        }
    }

    /// Returns `Ok` with the value stored at exactly `key`; if there is none,
    /// stores what `get_recursive` finds for it and returns that as `Err`.
    /// The cache must have a default, so that lookup always finds a value.
    pub fn get_or_initialize_with_parent(&mut self, key: &K) -> (r: Result<Option<&V>, Option<&V>>)
        requires
            old(self).wf(),
            old(self).default_spec() is Some,
        ensures
            final(self).wf(),
            final(self).default_spec() == old(self).default_spec(),
            old(self)@.contains_key(key@) ==> {
                &&& final(self)@ == old(self)@
                &&& final(self).count() == old(self).count()
                &&& r matches Ok(Some(v)) && *v == old(self)@[key@]
            },
            !old(self)@.contains_key(key@) ==> {
                &&& final(self)@ == old(self)@.insert(key@, old(self).lookup(key@)->0)
                &&& final(self).count() == old(self).count() + 1
                &&& r matches Err(Some(v)) && *v == old(self).lookup(key@)->0
            },
    {
        match self.find(key) {
            Some(i) => {
                proof {
                    lemma_entries_map_index(self.entries@, i as int);
                }
                Ok(Some(&self.entries[i].1))
            },
            None => {
                proof {
                    lemma_resolve_some(self@, self.default_spec(), key@);
                }
                let inherited = match self.get_recursive(key) {
                    Some(v) => *v,
                    None => {
                        assert(false);
                        self.default_value.unwrap()
                    },
                };
                self.set(key.clone_key(), inherited);
                Err(self.get(key))
            },
        }
    }
}

proof fn lemma_resolve_some<V>(m: Map<Seq<Seq<char>>, V>, default: Option<V>, k: Seq<Seq<char>>)
    requires
        default is Some,
    ensures
        resolve(m, default, k) is Some,
    decreases k.len(),
{
    if !m.contains_key(k) && k.len() > 0 {
        lemma_resolve_some(m, default, k.drop_last());
    }
}

proof fn lemma_count_is_size_of<K: View<V = Seq<Seq<char>>>, V>(s: Seq<(K, V)>)
    requires
        keys_unique(s),
    ensures
        entries_map(s).dom().finite(),
        entries_map(s).dom().len() == s.len(),
    decreases s.len(),
{
    if s.len() > 0 {
        let t = s.drop_last();
        assert(keys_unique(t));
        lemma_count_is_size_of(t);
        assert forall|i: int| 0 <= i < t.len() implies (#[trigger] t[i]).0@ != s.last().0@ by {
            assert(t[i] == s[i]);
        }
        lemma_entries_map_absent(t, s.last().0@);
    }
}

/// Storing `v` at `k` makes exact lookup of `k` find `v`, and leaves every
/// other key as it was.
pub proof fn law_get_after_set<K: CacheKey, V: Copy>(c: Cache<K, V>, k: Seq<Seq<char>>, v: V)
    requires
        c.wf(),
    ensures
        c@.insert(k, v).contains_key(k),
        c@.insert(k, v)[k] == v,
        forall|o: Seq<Seq<char>>| o != k ==> #[trigger] c@.insert(k, v).contains_key(o) == c@.contains_key(o),
{
}

/// When `k` itself has no value, hierarchical lookup yields the value of the
/// longest stored prefix of `k`.
pub proof fn law_nearest_ancestor<K: CacheKey, V: Copy>(c: Cache<K, V>, k: Seq<Seq<char>>, j: int)
    requires
        c.wf(),
        0 <= j <= k.len(),
        c@.contains_key(k.take(j)),
        forall|i: int| j < i <= k.len() ==> !c@.contains_key(#[trigger] k.take(i)),
    ensures
        c.lookup(k) == Some(c@[k.take(j)]),
{
    lemma_resolve_prefix(c@, c.default_spec(), k, j);
}

/// Hierarchical lookup yields the default exactly when no prefix of `k`,
/// the root included, has a value; otherwise it yields a stored value.
pub proof fn law_default_only_without_ancestor<K: CacheKey, V: Copy>(c: Cache<K, V>, k: Seq<Seq<char>>)
    requires
        c.wf(),
    ensures
        (forall|i: int| 0 <= i <= k.len() ==> !c@.contains_key(#[trigger] k.take(i))) ==> c.lookup(k)
            == c.default_spec(),
        (exists|i: int| 0 <= i <= k.len() && c@.contains_key(#[trigger] k.take(i))) ==> exists|i: int|
            0 <= i <= k.len() && #[trigger] c@.contains_key(k.take(i)) && c.lookup(k) == Some(c@[k.take(i)]),
{
    lemma_resolve_cases(c@, c.default_spec(), k);
}

/// Memoizing an absent key stores its inherited value there: the key count
/// grows by one, lookup of every key is unchanged, and a second call finds
/// the key present with the same value and changes nothing.
pub proof fn law_initialize_is_idempotent<K: CacheKey, V: Copy>(c: Cache<K, V>, k: Seq<Seq<char>>)
    requires
        c.wf(),
        c.default_spec() is Some,
        !c@.contains_key(k),
    ensures
        c.lookup(k) is Some,
        ({
            let after = c@.insert(k, c.lookup(k)->0);
            &&& after.contains_key(k)
            &&& after[k] == c.lookup(k)->0
            &&& after.dom().len() == c@.dom().len() + 1
            &&& after.insert(k, after[k]) == after
            &&& resolve(after, c.default_spec(), k) == c.lookup(k)
        }),
{
    lemma_resolve_some(c@, c.default_spec(), k);
    c.lemma_count_is_size();
    let after = c@.insert(k, c.lookup(k)->0);
    assert(after.insert(k, after[k]) =~= after);
}

proof fn lemma_resolve_prefix<V>(m: Map<Seq<Seq<char>>, V>, d: Option<V>, k: Seq<Seq<char>>, j: int)
    requires
        0 <= j <= k.len(),
        m.contains_key(k.take(j)),
        forall|i: int| j < i <= k.len() ==> !m.contains_key(#[trigger] k.take(i)),
    ensures
        resolve(m, d, k) == Some(m[k.take(j)]),
    decreases k.len() - j,
{
    if j == k.len() {
        assert(k.take(j) == k);
    } else {
        assert(k.take(k.len() as int) == k);
        assert(!m.contains_key(k.take(k.len() as int)));
        let p = k.drop_last();
        assert forall|i: int| j < i <= p.len() implies !m.contains_key(#[trigger] p.take(i)) by {
            assert(p.take(i) == k.take(i));
        }
        assert(p.take(j) == k.take(j));
        lemma_resolve_prefix(m, d, p, j);
    }
}

proof fn lemma_resolve_cases<V>(m: Map<Seq<Seq<char>>, V>, d: Option<V>, k: Seq<Seq<char>>)
    ensures
        (forall|i: int| 0 <= i <= k.len() ==> !m.contains_key(#[trigger] k.take(i))) ==> resolve(m, d, k) == d,
        (exists|i: int| 0 <= i <= k.len() && m.contains_key(#[trigger] k.take(i))) ==> exists|i: int|
            0 <= i <= k.len() && #[trigger] m.contains_key(k.take(i)) && resolve(m, d, k) == Some(m[k.take(i)]),
    decreases k.len(),
{
    assert(k.take(k.len() as int) == k);
    if k.len() > 0 {
        let p = k.drop_last();
        lemma_resolve_cases(m, d, p);
        assert forall|i: int| 0 <= i <= p.len() implies #[trigger] p.take(i) == k.take(i) by {}
        if m.contains_key(k) {
            assert(m.contains_key(k.take(k.len() as int)));
        } else {
            if exists|i: int| 0 <= i <= k.len() && m.contains_key(#[trigger] k.take(i)) {
                let i0 = choose|i: int| 0 <= i <= k.len() && m.contains_key(#[trigger] k.take(i));
                assert(i0 < k.len());
                assert(p.take(i0) == k.take(i0));
                assert(m.contains_key(p.take(i0)));
                let i1 = choose|i: int| 0 <= i <= p.len() && #[trigger] m.contains_key(p.take(i))
                    && resolve(m, d, p) == Some(m[p.take(i)]);
                assert(p.take(i1) == k.take(i1));
                assert(m.contains_key(k.take(i1)));
            }
            if forall|i: int| 0 <= i <= k.len() ==> !m.contains_key(#[trigger] k.take(i)) {
                assert forall|i: int| 0 <= i <= p.len() implies !m.contains_key(#[trigger] p.take(i)) by {
                    assert(p.take(i) == k.take(i));
                }
            }
        }
    } else {
        assert(k.take(0) == k);
    }
}

} // verus!
