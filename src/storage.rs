//! A trie from material identifiers to model numbers, in which an ignorable
//! trailing segment without a node of its own is no miss.

use vstd::prelude::*;
use crate::identifier::{ignorable_segment, split_on, upper_seq, Identifier, MaterialIdentifierElement};

verus! {

/// A material name as read from the simulation, split into segments.
pub struct MaterialIdentifier(pub Identifier);

impl View for MaterialIdentifier {
    type V = Seq<Seq<char>>;

    open spec fn view(&self) -> Seq<Seq<char>> {
        self.0@
    }
}

impl MaterialIdentifier {
    /// Parses a colon-delimited name, upper-casing every segment.
    pub fn from_string(s: &str) -> (r: Self)
        ensures
            r@ == split_on(s@, ':').map_values(|p: Seq<char>| upper_seq(p)),
    {
        MaterialIdentifier(Identifier::from_string(s))
    }

    pub fn from_segments(elements: Vec<MaterialIdentifierElement>) -> (r: Self)
        ensures
            r@ == crate::identifier::elements_view(elements@),
    {
        MaterialIdentifier(Identifier::from_segments(elements))
    }
}

/// The value that `Ok` or `Err` carries.
pub open spec fn either(r: Result<u32, u32>) -> u32 {
    match r {
        Ok(v) => v,
        Err(v) => v,
    }
}

/// A node of the identifier trie. A leaf holds a value; a branch holds
/// children by segment and the value for its own path.
pub enum StoragEntry {
    Leaf(u32),
    Branch { children: Vec<(MaterialIdentifierElement, StoragEntry)>, default_model: u32 },
}

/// Whether some child is stored under segment `seg`.
pub open spec fn has_child(children: Seq<(MaterialIdentifierElement, StoragEntry)>, seg: Seq<char>) -> bool {
    exists|i: int| 0 <= i < children.len() && (#[trigger] children[i]).0@ == seg
}

/// The position of the child stored under `seg`.
pub open spec fn child_at(children: Seq<(MaterialIdentifierElement, StoragEntry)>, seg: Seq<char>) -> int {
    choose|i: int| 0 <= i < children.len() && (#[trigger] children[i]).0@ == seg
}

/// Lookup in the trie. `Ok` means the path was matched as far as it goes,
/// or up to an ignorable segment; `Err` means a segment had no node and the
/// value is the nearest one above it. A matched value of 0 (no model) counts
/// as a miss and yields the enclosing branch's value.
spec fn entry_get(e: StoragEntry, path: Seq<Seq<char>>) -> Result<u32, u32>
    decreases e,
{
    match e {
        StoragEntry::Leaf(id) => {
            if path.len() > 0 && path[0] != ignorable_segment() {
                Err(id)
            } else {
                Ok(id)
            }
        },
        StoragEntry::Branch { children, default_model } => {
            if path.len() == 0 {
                Ok(default_model)
            } else if has_child(children@, path[0]) {
                let i = child_at(children@, path[0]);
                let r = entry_get(children@[i].1, path.drop_first());
                if either(r) == 0 {
                    Err(default_model)
                } else {
                    r
                }
            } else if path[0] == ignorable_segment() {
                Ok(default_model)
            } else {
                Err(default_model)
            }
        },
    }
}

/// Children of every branch have distinct segments.
pub open spec fn entry_wf(e: StoragEntry) -> bool
    decreases e,
{
    match e {
        StoragEntry::Leaf(_) => true,
        StoragEntry::Branch { children, default_model: _ } => {
            &&& forall|i: int, j: int|
                0 <= i < j < children@.len() ==> children@[i].0@ != children@[j].0@
            &&& forall|i: int| 0 <= i < children@.len() ==> entry_wf(#[trigger] children@[i].1)
        },
    }
}

/// The value of the node that `path` leads to exactly (a leaf's value or a
/// branch's own value), if there is such a node.
pub open spec fn node_value(e: StoragEntry, path: Seq<Seq<char>>) -> Option<u32>
    decreases e,
{
    match e {
        StoragEntry::Leaf(id) => {
            if path.len() == 0 {
                Some(id)
            } else {
                None
            }
        },
        StoragEntry::Branch { children, default_model } => {
            if path.len() == 0 {
                Some(default_model)
            } else if has_child(children@, path[0]) {
                node_value(children@[child_at(children@, path[0])].1, path.drop_first())
            } else {
                None
            }
        },
    }
}

/// Lookup of `p` over the node values `st`, with the first `j` segments
/// matched: the deepest node on the path with a nonzero value gives the
/// value (the root's own if none); the result is `Ok` when that is the last
/// node reached and the path is matched in full or its first unmatched
/// segment is the ignorable one, else `Err`.
pub open spec fn rule_from(st: spec_fn(Seq<Seq<char>>) -> Option<u32>, p: Seq<Seq<char>>, j: int) -> Result<u32, u32>
    decreases p.len() - j,
{
    let v = st(p.take(j))->0;
    if j >= p.len() || j < 0 {
        Ok(v)
    } else if st(p.take(j + 1)) is Some {
        let r = rule_from(st, p, j + 1);
        if either(r) == 0 {
            Err(v)
        } else {
            r
        }
    } else if p[j] == ignorable_segment() {
        Ok(v)
    } else {
        Err(v)
    }
}

proof fn lemma_rule_shift(e: StoragEntry, p: Seq<Seq<char>>, j: int)
    requires
        e is Branch,
        p.len() >= 1,
        has_child(e->children@, p[0]),
        0 <= j <= p.len() - 1,
    ensures
        rule_from(|q: Seq<Seq<char>>| node_value(e, q), p, j + 1) == rule_from(
            |q: Seq<Seq<char>>| node_value(e->children@[child_at(e->children@, p[0])].1, q),
            p.drop_first(),
            j,
        ),
    decreases p.len() - j,
{
    let c = e->children@[child_at(e->children@, p[0])].1;
    let d = p.drop_first();
    assert(p.take(j + 1)[0] == p[0]);
    assert(p.take(j + 1).drop_first() == d.take(j));
    assert(node_value(e, p.take(j + 1)) == node_value(c, d.take(j)));
    if j + 1 < p.len() {
        assert(p.take(j + 2)[0] == p[0]);
        assert(p.take(j + 2).drop_first() == d.take(j + 1));
        assert(node_value(e, p.take(j + 2)) == node_value(c, d.take(j + 1)));
        assert(p[j + 1] == d[j]);
        lemma_rule_shift(e, p, j + 1);
    }
}

/// Lookup in the trie follows the rule over its node values.
proof fn lemma_get_is_rule(e: StoragEntry, p: Seq<Seq<char>>)
    ensures
        entry_get(e, p) == rule_from(|q: Seq<Seq<char>>| node_value(e, q), p, 0),
    decreases e,
{
    assert(p.take(0) == Seq::<Seq<char>>::empty());
    match e {
        StoragEntry::Leaf(id) => {
            assert(node_value(e, p.take(0)) == Some(id));
            assert(entry_get(e, p) == (if p.len() > 0 && p[0] != ignorable_segment() {
                Err::<u32, u32>(id)
            } else {
                Ok::<u32, u32>(id)
            }));
            if p.len() > 0 {
                assert(p.take(1).len() == 1);
                assert(node_value(e, p.take(1)) is None);
                assert(rule_from(|q: Seq<Seq<char>>| node_value(e, q), p, 0) == (if p[0] == ignorable_segment() {
                    Ok::<u32, u32>(id)
                } else {
                    Err::<u32, u32>(id)
                }));
            } else {
                assert(rule_from(|q: Seq<Seq<char>>| node_value(e, q), p, 0) == Ok::<u32, u32>(id));
            }
            assert(entry_get(e, p) == rule_from(|q: Seq<Seq<char>>| node_value(e, q), p, 0));
        },
        StoragEntry::Branch { children, default_model } => {
            if p.len() > 0 {
                assert(p.take(1)[0] == p[0]);
                assert(p.take(1).drop_first() =~= Seq::<Seq<char>>::empty());
                if has_child(children@, p[0]) {
                    let c = children@[child_at(children@, p[0])].1;
                    lemma_get_is_rule(c, p.drop_first());
                    lemma_rule_shift(e, p, 0);
                    assert(p.drop_first().take(0) == Seq::<Seq<char>>::empty());
                    assert(node_value(e, p.take(1)) == node_value(c, Seq::<Seq<char>>::empty()));
                    assert(node_value(e, p.take(1)) is Some);
                } else {
                    assert(node_value(e, p.take(1)) is None);
                }
            }
            assert(node_value(e, p.take(0)) == Some(default_model));
            assert(entry_get(e, p) == rule_from(|q: Seq<Seq<char>>| node_value(e, q), p, 0));
        },
    }
}

/// `q` is a proper prefix of `p`.
pub open spec fn proper_prefix(q: Seq<Seq<char>>, p: Seq<Seq<char>>) -> bool {
    q.len() < p.len() && q == p.take(q.len() as int)
}

/// The node values after storing `value` at `p`: `p` holds `value`; nodes
/// that existed keep their values; the nodes created on the way hold 0.
pub open spec fn value_after_set(before: Option<u32>, q: Seq<Seq<char>>, p: Seq<Seq<char>>, value: u32) -> Option<u32> {
    if q == p {
        Some(value)
    } else if before is Some {
        before
    } else if proper_prefix(q, p) {
        Some(0)
    } else {
        None
    }
}

proof fn lemma_child_at(children: Seq<(MaterialIdentifierElement, StoragEntry)>, j: int, k: Seq<char>)
    requires
        forall|a: int, b: int| 0 <= a < b < children.len() ==> children[a].0@ != children[b].0@,
        0 <= j < children.len(),
        children[j].0@ == k,
    ensures
        has_child(children, k),
        child_at(children, k) == j,
{
    assert(has_child(children, k));
    let c = child_at(children, k);
    assert(children[c].0@ == k);
}

impl StoragEntry {
    fn find_child(children: &Vec<(MaterialIdentifierElement, StoragEntry)>, seg: &MaterialIdentifierElement) -> (r: Option<usize>)
        requires
            forall|i: int, j: int| 0 <= i < j < children@.len() ==> children@[i].0@ != children@[j].0@,
        ensures
            r is Some <==> has_child(children@, seg@),
            r matches Some(i) ==> i == child_at(children@, seg@) && i < children@.len(),
    {
        let n = children.len();
        let mut i: usize = 0;
        while i < n
            invariant
                n == children@.len(),
                i <= n,
                forall|a: int, b: int| 0 <= a < b < children@.len() ==> children@[a].0@ != children@[b].0@,
                forall|j: int| 0 <= j < i ==> (#[trigger] children@[j]).0@ != seg@,
            decreases n - i,
        {
            if children[i].0.equals(seg) {
                assert(has_child(children@, seg@));
                let ghost k = child_at(children@, seg@);
                assert(children@[k].0@ == seg@);
                assert(k == i);
                return Some(i);
            }
            i = i + 1;
        }
        None
    }

    fn get(&self, path: &Identifier, start: usize) -> (r: Result<u32, u32>)
        requires
            entry_wf(*self),
            start <= path@.len(),
        ensures
            r == entry_get(*self, path@.subrange(start as int, path@.len() as int)),
        decreases self,
    {
        let ghost sub = path@.subrange(start as int, path@.len() as int);
        match self {
            StoragEntry::Leaf(id) => {
                if start < path.len() && !path.segment(start).is_ignorable() {
                    Err(*id)
                } else {
                    Ok(*id)
                }
            },
            StoragEntry::Branch { children, default_model } => {
                if start == path.len() {
                    Ok(*default_model)
                } else {
                    let seg = path.segment(start);
                    match Self::find_child(children, seg) {
                        Some(i) => {
                            assert(sub.drop_first() == path@.subrange(start + 1, path@.len() as int));
                            let r = children[i].1.get(path, start + 1);
                            let v = match r {
                                Ok(v) => v,
                                Err(v) => v,
                            };
                            if v == 0 {
                                Err(*default_model)
                            } else {
                                r
                            }
                        },
                        None => {
                            if seg.is_ignorable() {
                                Ok(*default_model)
                            } else {
                                Err(*default_model)
                            }
                        },
                    }
                }
            },
        }
    }

    /// A fresh node for a path with `left` segments still to place.
    fn determine_node_type(left: usize) -> (r: StoragEntry)
        ensures
            entry_wf(r),
            left >= 2 ==> (r matches StoragEntry::Branch { children, default_model } && children@.len()
                == 0 && default_model == 0),
            left < 2 ==> r == StoragEntry::Leaf(0),
    {
        if left >= 2 {
            StoragEntry::Branch { children: Vec::new(), default_model: 0 }
        } else {
            StoragEntry::Leaf(0)
        }
    }

    fn set(&mut self, path: &Identifier, start: usize, value: u32)
        requires
            entry_wf(*old(self)),
            start <= path@.len(),
        ensures
            entry_wf(*final(self)),
            value != 0 ==> entry_get(*final(self), path@.subrange(start as int, path@.len() as int))
                == Ok::<u32, u32>(value),
            forall|q: Seq<Seq<char>>|
                #[trigger] node_value(*final(self), q) == value_after_set(
                    node_value(*old(self), q),
                    q,
                    path@.subrange(start as int, path@.len() as int),
                    value,
                ),
        decreases path@.len() - start,
    {
        let ghost sub = path@.subrange(start as int, path@.len() as int);
        let ghost old_e = *self;
        if start == path.len() {
            match self {
                StoragEntry::Leaf(id) => {
                    *id = value;
                },
                StoragEntry::Branch { default_model, .. } => {
                    *default_model = value;
                },
            }
            proof {
                assert forall|q: Seq<Seq<char>>| #[trigger] node_value(*self, q) == value_after_set(
                    node_value(old_e, q),
                    q,
                    sub,
                    value,
                ) by {
                    if q.len() == 0 {
                        assert(q =~= sub);
                    }
                }
            }
            return;
        }
        if let StoragEntry::Leaf(id) = self {
            let demoted = *id;
            *self = StoragEntry::Branch { children: Vec::new(), default_model: demoted };
        }
        proof {
            assert forall|q: Seq<Seq<char>>| #[trigger] node_value(*self, q) == node_value(old_e, q) by {
                if q.len() > 0 && old_e is Leaf {
                    assert(!has_child(Seq::<(MaterialIdentifierElement, StoragEntry)>::empty(), q[0]));
                }
            }
        }
        let ghost mid = *self;
        match self {
            StoragEntry::Leaf(_) => {},
            StoragEntry::Branch { children, default_model } => {
                let seg = path.segment(start);
                let i = match Self::find_child(children, seg) {
                    Some(i) => i,
                    None => {
                        let ghost before = children@;
                        children.push((seg.clone(), Self::determine_node_type(path.len() - start)));
                        proof {
                            assert forall|a: int, b: int| 0 <= a < b < children@.len() implies children@[a].0@
                                != children@[b].0@ by {
                                if b == children@.len() - 1 {
                                    assert(children@[a] == before[a]);
                                    if before[a].0@ == seg@ {
                                        assert(has_child(before, seg@));
                                    }
                                }
                            }
                        }
                        let n = children.len() - 1;
                        proof {
                            assert(children@[n as int].0@ == seg@);
                            assert(has_child(children@, seg@));
                            let k = child_at(children@, seg@);
                            assert(k == n);
                        }
                        n
                    },
                };
                let ghost pushed = children@;
                let ghost old_child = children@[i as int].1;
                children[i].1.set(path, start + 1, value);
                proof {
                    let sub1 = path@.subrange(start + 1, path@.len() as int);
                    assert(sub.drop_first() == sub1);
                    assert(sub[0] == seg@);
                    assert(has_child(children@, seg@) && child_at(children@, seg@) == i);
                    let mid_children = match mid {
                        StoragEntry::Branch { children, .. } => children@,
                        _ => arbitrary(),
                    };
                    assert forall|q: Seq<Seq<char>>| #[trigger] node_value(*self, q) == value_after_set(
                        node_value(mid, q),
                        q,
                        sub,
                        value,
                    ) by {
                        if q.len() == 0 {
                            assert(sub.len() > 0);
                            assert(q != sub);
                            assert(node_value(*self, q) == node_value(mid, q));
                        }
                        if q.len() > 0 {
                            if q[0] == seg@ {
                                let q1 = q.drop_first();
                                assert(node_value(*self, q) == node_value(children@[i as int].1, q1));
                                assert(q1 == sub1 <==> q == sub) by {
                                    if q1 == sub1 {
                                        assert forall|k: int| 0 <= k < q.len() implies q[k] == sub[k] by {
                                            if k > 0 {
                                                assert(q[k] == q1[k - 1]);
                                                assert(sub[k] == sub1[k - 1]);
                                            }
                                        }
                                        assert(q =~= sub);
                                    }
                                }
                                assert(proper_prefix(q1, sub1) <==> proper_prefix(q, sub)) by {
                                    if proper_prefix(q1, sub1) {
                                        assert forall|k: int| 0 <= k < q.len() implies q[k] == sub.take(q.len() as int)[k] by {
                                            if k > 0 {
                                                assert(q[k] == q1[k - 1]);
                                                assert(sub[k] == sub1[k - 1]);
                                                assert(q1[k - 1] == sub1.take(q1.len() as int)[k - 1]);
                                            }
                                        }
                                        assert(q =~= sub.take(q.len() as int));
                                    }
                                    if proper_prefix(q, sub) {
                                        assert(q1 =~= sub1.take(q1.len() as int));
                                    }
                                }
                                if has_child(mid_children, seg@) {
                                    assert(node_value(mid, q) == node_value(old_child, q1));
                                } else {
                                    assert(node_value(mid, q) is None);
                                    if q1.len() == 0 {
                                        if sub.len() == 1 {
                                            assert(q =~= sub);
                                        } else {
                                            assert(q =~= sub.take(1));
                                        }
                                    } else {
                                        assert(node_value(old_child, q1) is None) by {
                                            if let StoragEntry::Branch { children: c, .. } = old_child {
                                                assert(c@.len() == 0);
                                                assert(!has_child(c@, q1[0]));
                                            }
                                        }
                                    }
                                }
                            } else {
                                assert(!(q == sub));
                                assert(!proper_prefix(q, sub)) by {
                                    if proper_prefix(q, sub) {
                                        assert(q[0] == sub.take(q.len() as int)[0]);
                                    }
                                }
                                if has_child(mid_children, q[0]) {
                                    let j = child_at(mid_children, q[0]);
                                    assert(j != i);
                                    assert(children@[j] == mid_children[j]);
                                    lemma_child_at(children@, j, q[0]);
                                } else {
                                    assert(!has_child(children@, q[0])) by {
                                        if has_child(children@, q[0]) {
                                            let j = child_at(children@, q[0]);
                                            assert(j != i);
                                            assert(children@[j].0@ == mid_children[j].0@);
                                        }
                                    }
                                }
                            }
                        }
                    }
                }
            },
        }
    }
}

/// A trie from material identifiers to model numbers, with the rule that an
/// ignorable trailing segment without a node of its own is no miss.
pub struct MaterialIdentifierStorage {
    storage: StoragEntry,
}

impl MaterialIdentifierStorage {
    pub closed spec fn wf(&self) -> bool {
        entry_wf(self.storage)
    }

    /// What lookup of `path` yields, by the lookup rule over the stored
    /// node values.
    pub open spec fn lookup(&self, path: Seq<Seq<char>>) -> Result<u32, u32> {
        rule_from(|q: Seq<Seq<char>>| self.stored(q), path, 0)
    }

    proof fn lemma_lookup(&self, path: Seq<Seq<char>>)
        ensures
            entry_get(self.storage, path) == self.lookup(path),
    {
        lemma_get_is_rule(self.storage, path);
        assert((|q: Seq<Seq<char>>| self.stored(q)) =~= (|q: Seq<Seq<char>>| node_value(self.storage, q)));
    }

    /// The value of the node at exactly `path`, if there is one.
    pub closed spec fn stored(&self, path: Seq<Seq<char>>) -> Option<u32> {
        node_value(self.storage, path)
    }

    pub fn new() -> (r: Self)
        ensures
            r.wf(),
            forall|p: Seq<Seq<char>>| #[trigger] r.stored(p) == (if p.len() == 0 {
                Some(0u32)
            } else {
                None
            }),
            forall|p: Seq<Seq<char>>| #[trigger] r.lookup(p) == (if p.len() == 0 || p[0] == ignorable_segment() {
                Ok::<u32, u32>(0)
            } else {
                Err::<u32, u32>(0)
            }),
    {
        let r = MaterialIdentifierStorage {
            storage: StoragEntry::Branch { children: Vec::new(), default_model: 0 },
        };
        assert forall|p: Seq<Seq<char>>| #[trigger] r.lookup(p) == (if p.len() == 0 || p[0] == ignorable_segment() {
            Ok::<u32, u32>(0)
        } else {
            Err::<u32, u32>(0)
        }) by {
            r.lemma_lookup(p);
            if p.len() > 0 {
                assert(!has_child(Seq::<(MaterialIdentifierElement, StoragEntry)>::empty(), p[0]));
            }
        }
        assert forall|p: Seq<Seq<char>>| #[trigger] r.stored(p) == (if p.len() == 0 {
            Some(0u32)
        } else {
            None
        }) by {
            if p.len() > 0 {
                assert(!has_child(Seq::<(MaterialIdentifierElement, StoragEntry)>::empty(), p[0]));
            }
        }
        r
    }

    pub fn get_id(&self, identifier: &MaterialIdentifier) -> (r: Result<u32, u32>)
        requires
            self.wf(),
        ensures
            r == self.lookup(identifier@),
    {
        let r = self.storage.get(&identifier.0, 0);
        assert(identifier@.subrange(0, identifier@.len() as int) == identifier@);
        proof {
            self.lemma_lookup(identifier@);
        }
        r
    }

    pub fn set_id(&mut self, identifier: &MaterialIdentifier, value: u32)
        requires
            old(self).wf(),
        ensures
            final(self).wf(),
            value != 0 ==> final(self).lookup(identifier@) == Ok::<u32, u32>(value),
            forall|q: Seq<Seq<char>>|
                #[trigger] final(self).stored(q) == value_after_set(old(self).stored(q), q, identifier@, value),
    {
        self.storage.set(&identifier.0, 0, value);
        assert(identifier@.subrange(0, identifier@.len() as int) == identifier@);
        proof {
            self.lemma_lookup(identifier@);
        }
    }
}

/// The lookup rule reads only the node values at prefixes of the path.
proof fn lemma_rule_congruent(
    st1: spec_fn(Seq<Seq<char>>) -> Option<u32>,
    st2: spec_fn(Seq<Seq<char>>) -> Option<u32>,
    q: Seq<Seq<char>>,
    j: int,
)
    requires
        0 <= j <= q.len(),
        forall|i: int| 0 <= i <= q.len() ==> st1(#[trigger] q.take(i)) == st2(q.take(i)),
    ensures
        rule_from(st1, q, j) == rule_from(st2, q, j),
    decreases q.len() - j,
{
    if j < q.len() {
        lemma_rule_congruent(st1, st2, q, j + 1);
        assert(st1(q.take(j)) == st2(q.take(j)));
        assert(st1(q.take(j + 1)) == st2(q.take(j + 1)));
    } else {
        assert(st1(q.take(j)) == st2(q.take(j)));
    }
}

/// Storing a value at `p`, where every proper prefix of `p` already has a
/// node, leaves the lookup of every path that does not extend `p`
/// unchanged.
pub proof fn law_set_keeps_other_lookups(
    before: MaterialIdentifierStorage,
    after: MaterialIdentifierStorage,
    p: Seq<Seq<char>>,
    value: u32,
    q: Seq<Seq<char>>,
)
    requires
        forall|x: Seq<Seq<char>>| #[trigger] after.stored(x) == value_after_set(before.stored(x), x, p, value),
        forall|j: int| 0 <= j < p.len() ==> (#[trigger] before.stored(p.take(j))) is Some,
        !(q.len() >= p.len() && q.take(p.len() as int) == p),
    ensures
        after.lookup(q) == before.lookup(q),
{
    assert forall|i: int| 0 <= i <= q.len() implies after.stored(#[trigger] q.take(i)) == before.stored(q.take(i)) by {
        let x = q.take(i);
        assert(after.stored(x) == value_after_set(before.stored(x), x, p, value));
        if x == p {
            assert(q.take(p.len() as int) == p);
        }
        if proper_prefix(x, p) {
            assert(before.stored(p.take(x.len() as int)) is Some);
        }
    }
    lemma_rule_congruent(|x: Seq<Seq<char>>| after.stored(x), |x: Seq<Seq<char>>| before.stored(x), q, 0);
}

} // verus!
