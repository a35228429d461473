//! The trie itself: a recursive node structure, each node holding an
//! optional value and the children reached by one key segment each.
//!
//! The mathematical model is the total function `spec_get`, which maps every
//! path to the value stored at it (`None` where nothing is stored), together
//! with `has_node`, which says which paths lead to an existing node. Nodes
//! are created on demand by `insert` and never removed, so the set of paths
//! with a node only grows, and it is always closed under taking prefixes.

use vstd::prelude::*;

use crate::keys::Dup;
use crate::keys::Segment;

verus! {

/// `q` is a (not necessarily strict) prefix of `p`.
pub open spec fn is_prefix_of<K>(q: Seq<K>, p: Seq<K>) -> bool {
    q.len() <= p.len() && (forall|j: int| 0 <= j < q.len() ==> q[j] == p[j])
}

/// Stepping once into the tail of `p` taken from `i` lands at the tail
/// taken from `i + 1`.
proof fn lemma_skip_step<A>(p: Seq<A>, i: int)
    requires
        0 <= i < p.len(),
    ensures
        p.skip(i).len() == p.len() - i,
        p.skip(i)[0] == p[i],
        p.skip(i).drop_first() == p.skip(i + 1),
{
    assert(p.skip(i).drop_first() =~= p.skip(i + 1));
}

/// For sequences that agree on their first element, being a prefix is
/// decided by the tails.
proof fn lemma_prefix_step<A>(q: Seq<A>, p: Seq<A>)
    requires
        q.len() > 0,
        p.len() > 0,
        q[0] == p[0],
    ensures
        is_prefix_of(q, p) <==> is_prefix_of(q.drop_first(), p.drop_first()),
{
    if is_prefix_of(q, p) {
        assert forall|j: int| 0 <= j < q.drop_first().len() implies q.drop_first()[j]
            == p.drop_first()[j] by {
            assert(q[j + 1] == p[j + 1]);
        }
    }
    if is_prefix_of(q.drop_first(), p.drop_first()) {
        assert forall|j: int| 0 <= j < q.len() implies q[j] == p[j] by {
            if j > 0 {
                assert(q.drop_first()[j - 1] == p.drop_first()[j - 1]);
            }
        }
    }
}

/// Sequences with equal first elements and equal tails are equal.
proof fn lemma_head_tail_eq<A>(q: Seq<A>, p: Seq<A>)
    requires
        q.len() > 0,
        p.len() > 0,
        q[0] == p[0],
        q.drop_first() == p.drop_first(),
    ensures
        q == p,
{
    assert(q.drop_first().len() == q.len() - 1);
    assert(p.drop_first().len() == p.len() - 1);
    assert(q.len() == p.len());
    assert forall|j: int| 0 <= j < q.len() implies q[j] == p[j] by {
        if j > 0 {
            assert(q.drop_first()[j - 1] == q[j]);
            assert(p.drop_first()[j - 1] == p[j]);
            assert(q.drop_first()[j - 1] == p.drop_first()[j - 1]);
        }
    }
    assert(q =~= p);
}

/// One node of the trie; the root node stands for the empty path.
pub struct Trie<K, V> {
    value: Option<V>,
    children: Vec<(K, Trie<K, V>)>,
}

impl<K, V> Trie<K, V> {
    /// The child of a node for segment `k`, looked up in the node's child
    /// list: the first entry whose key equals `k`, if any.
    spec fn find_child(s: Seq<(K, Trie<K, V>)>, k: K) -> Option<Trie<K, V>>
        decreases s.len(),
    {
        if s.len() == 0 {
            None
        } else if s[0].0 == k {
            Some(s[0].1)
        } else {
            Self::find_child(s.drop_first(), k)
        }
    }

    /// The value stored at `path` below this node, if any.
    pub closed spec fn spec_get(self, path: Seq<K>) -> Option<V>
        decreases path.len(),
    {
        if path.len() == 0 {
            self.value
        } else {
            match Self::find_child(self.children@, path[0]) {
                Some(c) => c.spec_get(path.drop_first()),
                None => None,
            }
        }
    }

    /// Whether walking `path` from this node meets a node at every step.
    pub closed spec fn has_node(self, path: Seq<K>) -> bool
        decreases path.len(),
    {
        if path.len() == 0 {
            true
        } else {
            match Self::find_child(self.children@, path[0]) {
                Some(c) => c.has_node(path.drop_first()),
                None => false,
            }
        }
    }
}

impl<K, V> Trie<K, V> {
    /// A match at `i`, with no earlier match, is the child that
    /// `find_child` picks.
    proof fn lemma_find_child_at(s: Seq<(K, Trie<K, V>)>, k: K, i: int)
        requires
            0 <= i < s.len(),
            s[i].0 == k,
            forall|j: int| 0 <= j < i ==> s[j].0 != k,
        ensures
            Self::find_child(s, k) == Some(s[i].1),
        decreases i,
    {
        if i > 0 {
            Self::lemma_find_child_at(s.drop_first(), k, i - 1);
        }
    }

    /// Where no entry's key equals `k`, `find_child` finds nothing.
    proof fn lemma_find_child_none(s: Seq<(K, Trie<K, V>)>, k: K)
        requires
            forall|j: int| 0 <= j < s.len() ==> s[j].0 != k,
        ensures
            Self::find_child(s, k) is None,
        decreases s.len(),
    {
        if s.len() > 0 {
            Self::lemma_find_child_none(s.drop_first(), k);
        }
    }

    /// Replacing the child that `find_child` picks changes the lookup for
    /// its key alone.
    proof fn lemma_find_child_update(s: Seq<(K, Trie<K, V>)>, k: K, i: int, c: Trie<K, V>)
        requires
            0 <= i < s.len(),
            s[i].0 == k,
            forall|j: int| 0 <= j < i ==> s[j].0 != k,
        ensures
            Self::find_child(s.update(i, (k, c)), k) == Some(c),
            forall|k2: K| k2 != k ==> Self::find_child(s.update(i, (k, c)), k2)
                == Self::find_child(s, k2),
        decreases i,
    {
        let s2 = s.update(i, (k, c));
        if i == 0 {
            assert(s2.drop_first() =~= s.drop_first());
            assert forall|k2: K| k2 != k implies Self::find_child(s2, k2) == Self::find_child(
                s,
                k2,
            ) by {
                assert(Self::find_child(s2, k2) == Self::find_child(s2.drop_first(), k2));
                assert(Self::find_child(s, k2) == Self::find_child(s.drop_first(), k2));
            }
        } else {
            assert(s.drop_first()[i - 1] == s[i]);
            assert(forall|j: int| 0 <= j < i - 1 ==> s.drop_first()[j] == s[j + 1]);
            Self::lemma_find_child_update(s.drop_first(), k, i - 1, c);
            assert(s2.drop_first() =~= s.drop_first().update(i - 1, (k, c)));
            assert(s2[0] == s[0]);
            assert(Self::find_child(s2, k) == Self::find_child(s2.drop_first(), k));
            assert forall|k2: K| k2 != k implies Self::find_child(s2, k2) == Self::find_child(
                s,
                k2,
            ) by {
                if s[0].0 != k2 {
                    assert(Self::find_child(s2, k2) == Self::find_child(s2.drop_first(), k2));
                    assert(Self::find_child(s, k2) == Self::find_child(s.drop_first(), k2));
                }
            }
        }
    }

    /// Appending an entry under a key that no entry has yet changes the
    /// lookup for that key alone.
    proof fn lemma_find_child_push(s: Seq<(K, Trie<K, V>)>, k: K, c: Trie<K, V>)
        requires
            forall|j: int| 0 <= j < s.len() ==> s[j].0 != k,
        ensures
            Self::find_child(s.push((k, c)), k) == Some(c),
            forall|k2: K| k2 != k ==> Self::find_child(s.push((k, c)), k2)
                == Self::find_child(s, k2),
        decreases s.len(),
    {
        let s2 = s.push((k, c));
        if s.len() == 0 {
            assert(s2[0] == (k, c));
            assert(s2.drop_first() =~= Seq::<(K, Trie<K, V>)>::empty());
            assert forall|k2: K| k2 != k implies Self::find_child(s2, k2) == Self::find_child(
                s,
                k2,
            ) by {
                assert(Self::find_child(s2, k2) == Self::find_child(s2.drop_first(), k2));
            }
        } else {
            assert(forall|j: int| 0 <= j < s.len() - 1 ==> s.drop_first()[j] == s[j + 1]);
            Self::lemma_find_child_push(s.drop_first(), k, c);
            assert(s2.drop_first() =~= s.drop_first().push((k, c)));
            assert(s2[0] == s[0]);
            assert(Self::find_child(s2, k) == Self::find_child(s2.drop_first(), k));
            assert forall|k2: K| k2 != k implies Self::find_child(s2, k2) == Self::find_child(
                s,
                k2,
            ) by {
                if s[0].0 != k2 {
                    assert(Self::find_child(s2, k2) == Self::find_child(s2.drop_first(), k2));
                    assert(Self::find_child(s, k2) == Self::find_child(s.drop_first(), k2));
                }
            }
        }
    }

    /// A stored value is always reachable: wherever `spec_get` finds a
    /// value, a node exists, so a `fetch` of that exact path is allowed
    /// and owed the value.
    pub proof fn lemma_stored_implies_reachable(self, p: Seq<K>)
        requires
            self.spec_get(p) is Some,
        ensures
            self.has_node(p),
        decreases p.len(),
    {
        if p.len() > 0 {
            match Self::find_child(self.children@, p[0]) {
                Some(c) => {
                    c.lemma_stored_implies_reachable(p.drop_first());
                },
                None => {},
            }
        }
    }

    /// The set of reachable paths is closed under taking prefixes: every
    /// prefix of a path that leads to a node leads to a node itself, so it
    /// may be fetched, whether or not a value was stored there.
    pub proof fn lemma_reachable_prefix_closed(self, p: Seq<K>, q: Seq<K>)
        requires
            self.has_node(p),
            is_prefix_of(q, p),
        ensures
            self.has_node(q),
        decreases q.len(),
    {
        if q.len() > 0 {
            match Self::find_child(self.children@, p[0]) {
                Some(c) => {
                    lemma_prefix_step(q, p);
                    c.lemma_reachable_prefix_closed(p.drop_first(), q.drop_first());
                },
                None => {},
            }
        }
    }

    /// Lifts the effect of an insertion inside an existing child to the
    /// parent node: `self` is `pre` with the child for `k` replaced, the
    /// child's subtree changed only at `rest`, so the parent's map changed
    /// only at `full`, and the parent gained exactly the nodes along
    /// `full`.
    proof fn lemma_insert_at_step(
        self,
        pre: Trie<K, V>,
        pre_child: Trie<K, V>,
        post_child: Trie<K, V>,
        k: K,
        full: Seq<K>,
        rest: Seq<K>,
        v: V,
    )
        requires
            full.len() > 0,
            full[0] == k,
            full.drop_first() == rest,
            self.value == pre.value,
            Self::find_child(pre.children@, k) == Some(pre_child),
            Self::find_child(self.children@, k) == Some(post_child),
            forall|k2: K| k2 != k ==> Self::find_child(self.children@, k2) == Self::find_child(
                pre.children@,
                k2,
            ),
            post_child.spec_get(rest) == Some(v),
            forall|q: Seq<K>| q != rest ==> post_child.spec_get(q) == pre_child.spec_get(q),
            forall|q: Seq<K>|
                post_child.has_node(q) <==> pre_child.has_node(q) || is_prefix_of(q, rest),
        ensures
            self.spec_get(full) == Some(v),
            forall|q: Seq<K>| q != full ==> self.spec_get(q) == pre.spec_get(q),
            forall|q: Seq<K>|
                #[trigger] self.has_node(q) <==> pre.has_node(q) || is_prefix_of(q, full),
    {
        assert(self.spec_get(full) == post_child.spec_get(rest));
        assert forall|q: Seq<K>| q != full implies self.spec_get(q) == pre.spec_get(q) by {
            if q.len() == 0 {
            } else if q[0] == k {
                if q.drop_first() == rest {
                    lemma_head_tail_eq(q, full);
                }
                assert(self.spec_get(q) == post_child.spec_get(q.drop_first()));
                assert(pre.spec_get(q) == pre_child.spec_get(q.drop_first()));
            }
        }
        assert forall|q: Seq<K>|
            self.has_node(q) <==> pre.has_node(q) || is_prefix_of(q, full) by {
            if q.len() == 0 {
            } else if q[0] == k {
                lemma_prefix_step(q, full);
                assert(self.has_node(q) == post_child.has_node(q.drop_first()));
                assert(pre.has_node(q) == pre_child.has_node(q.drop_first()));
            } else {
                assert(is_prefix_of(q, full) ==> q[0] == full[0]);
            }
        }
    }

    /// Lifts the effect of an insertion inside a freshly created child to
    /// the parent node: as `lemma_insert_at_step`, but `pre` had no child
    /// for `k` at all, and `pre_child` is the empty node that took its
    /// place.
    proof fn lemma_insert_at_grow(
        self,
        pre: Trie<K, V>,
        pre_child: Trie<K, V>,
        post_child: Trie<K, V>,
        k: K,
        full: Seq<K>,
        rest: Seq<K>,
        v: V,
    )
        requires
            full.len() > 0,
            full[0] == k,
            full.drop_first() == rest,
            self.value == pre.value,
            Self::find_child(pre.children@, k) is None,
            Self::find_child(self.children@, k) == Some(post_child),
            forall|k2: K| k2 != k ==> Self::find_child(self.children@, k2) == Self::find_child(
                pre.children@,
                k2,
            ),
            forall|q: Seq<K>| pre_child.spec_get(q) is None,
            forall|q: Seq<K>| pre_child.has_node(q) <==> q.len() == 0,
            post_child.spec_get(rest) == Some(v),
            forall|q: Seq<K>| q != rest ==> post_child.spec_get(q) == pre_child.spec_get(q),
            forall|q: Seq<K>|
                post_child.has_node(q) <==> pre_child.has_node(q) || is_prefix_of(q, rest),
        ensures
            self.spec_get(full) == Some(v),
            forall|q: Seq<K>| q != full ==> self.spec_get(q) == pre.spec_get(q),
            forall|q: Seq<K>|
                #[trigger] self.has_node(q) <==> pre.has_node(q) || is_prefix_of(q, full),
    {
        assert(self.spec_get(full) == post_child.spec_get(rest));
        assert forall|q: Seq<K>| q != full implies self.spec_get(q) == pre.spec_get(q) by {
            if q.len() == 0 {
            } else if q[0] == k {
                if q.drop_first() == rest {
                    lemma_head_tail_eq(q, full);
                }
                assert(self.spec_get(q) == post_child.spec_get(q.drop_first()));
                assert(post_child.spec_get(q.drop_first()) == pre_child.spec_get(q.drop_first()));
                assert(pre.spec_get(q) is None);
            }
        }
        assert forall|q: Seq<K>|
            self.has_node(q) <==> pre.has_node(q) || is_prefix_of(q, full) by {
            if q.len() == 0 {
            } else if q[0] == k {
                lemma_prefix_step(q, full);
                assert(self.has_node(q) == post_child.has_node(q.drop_first()));
                assert(!pre.has_node(q));
                assert(q.drop_first().len() == 0 ==> is_prefix_of(q.drop_first(), rest));
            } else {
                assert(is_prefix_of(q, full) ==> q[0] == full[0]);
            }
        }
    }
}

impl<K: Segment, V: Dup> Trie<K, V> {
    /// The position of the first child entry whose key equals `k`, if any.
    fn child_index(children: &Vec<(K, Trie<K, V>)>, k: &K) -> (r: Option<usize>)
        ensures
            (match r {
                Some(i) => 0 <= i < children@.len() && children@[i as int].0 == *k
                    && (forall|j: int| 0 <= j < i ==> children@[j].0 != *k),
                None => forall|j: int| 0 <= j < children@.len() ==> children@[j].0 != *k,
            }),
    {
        let mut i: usize = 0;
        while i < children.len()
            invariant
                i <= children@.len(),
                forall|j: int| 0 <= j < i ==> children@[j].0 != *k,
            decreases children@.len() - i,
        {
            if children[i].0.seg_eq(k) {
                return Some(i);
            }
            i = i + 1;
        }
        None
    }

    /// Returns an empty trie: no value stored at any path, and no node
    /// anywhere but the root.
    pub fn new() -> (t: Trie<K, V>)
        ensures
            forall|p: Seq<K>| t.spec_get(p) is None,
            forall|p: Seq<K>| t.has_node(p) <==> p.len() == 0,
    {
        let t = Trie { value: None, children: Vec::new() };
        proof {
            assert forall|p: Seq<K>| t.spec_get(p) is None by {
                if p.len() > 0 {
                    assert(Self::find_child(t.children@, p[0]) is None);
                }
            }
            assert forall|p: Seq<K>| t.has_node(p) <==> p.len() == 0 by {
                if p.len() > 0 {
                    assert(Self::find_child(t.children@, p[0]) is None);
                }
            }
        }
        t
    }

    /// Retrieves the value stored at exactly `path`, as an independent
    /// copy, or `None` where the node at `path` holds no value.
    ///
    /// Walking `path` must meet an existing node at every step: fetching a
    /// path into territory that no insertion has touched is caller misuse,
    /// and is ruled out here rather than reported.
    pub fn fetch(&self, path: Vec<K>) -> (r: Option<V>)
        requires
            self.has_node(path@),
        ensures
            r == self.spec_get(path@),
    {
        proof {
            assert(path@.skip(0) =~= path@);
        }
        self.fetch_at(&path, 0)
    }

    /// Walks the tail of `path` starting at segment `i`, below `self`.
    fn fetch_at(&self, path: &Vec<K>, i: usize) -> (r: Option<V>)
        requires
            i <= path@.len(),
            self.has_node(path@.skip(i as int)),
        ensures
            r == self.spec_get(path@.skip(i as int)),
        decreases path@.len() - i,
    {
        let ghost rest = path@.skip(i as int);
        if i == path.len() {
            proof {
                assert(rest.len() == 0);
            }
            match &self.value {
                Some(v) => Some(v.dup()),
                None => None,
            }
        } else {
            proof {
                lemma_skip_step(path@, i as int);
            }
            match Self::child_index(&self.children, &path[i]) {
                Some(ci) => {
                    proof {
                        Self::lemma_find_child_at(self.children@, path@[i as int], ci as int);
                    }
                    self.children[ci].1.fetch_at(path, i + 1)
                }
                None => {
                    // never reached: the walk was promised a node at every
                    // step, and the proof closes this arm off
                    proof {
                        Self::lemma_find_child_none(self.children@, path@[i as int]);
                        assert(!self.has_node(rest));
                    }
                    None
                }
            }
        }
    }

    /// Stores `v` at exactly `path`, creating every missing node along the
    /// way; existing nodes, and the values stored anywhere else, are left
    /// as they were.
    ///
    /// The slot at `path` must still be free: inserting at an occupied
    /// path is caller misuse (a duplicate key), and is ruled out here
    /// rather than resolved by overwriting.
    pub fn insert(&mut self, path: Vec<K>, v: V)
        requires
            old(self).spec_get(path@) is None,
        ensures
            final(self).spec_get(path@) == Some(v),
            forall|q: Seq<K>| q != path@ ==> final(self).spec_get(q) == old(self).spec_get(q),
            forall|q: Seq<K>|
                final(self).has_node(q) <==> old(self).has_node(q) || is_prefix_of(q, path@),
    {
        proof {
            assert(path@.skip(0) =~= path@);
        }
        self.insert_at(&path, 0, v);
    }

    /// Stores `v` at the tail of `path` starting at segment `i`, below
    /// `self`.
    fn insert_at(&mut self, path: &Vec<K>, i: usize, v: V)
        requires
            i <= path@.len(),
            old(self).spec_get(path@.skip(i as int)) is None,
        ensures
            final(self).spec_get(path@.skip(i as int)) == Some(v),
            forall|q: Seq<K>|
                q != path@.skip(i as int) ==> final(self).spec_get(q) == old(self).spec_get(q),
            forall|q: Seq<K>|
                final(self).has_node(q) <==> old(self).has_node(q) || is_prefix_of(
                    q,
                    path@.skip(i as int),
                ),
        decreases path@.len() - i,
    {
        let ghost full = path@.skip(i as int);
        if i == path.len() {
            proof {
                assert(full.len() == 0);
            }
            self.value = Some(v);
            proof {
                assert(self.spec_get(full) == Some(v));
                assert forall|q: Seq<K>| q != full implies self.spec_get(q) == old(
                    self,
                ).spec_get(q) by {
                    if q.len() == 0 {
                        assert(q =~= full);
                    }
                }
                assert forall|q: Seq<K>| self.has_node(q) <==> old(self).has_node(q)
                    || is_prefix_of(q, full) by {
                    if q.len() > 0 {
                        assert(!is_prefix_of(q, full));
                    }
                }
            }
        } else {
            let ghost k = path@[i as int];
            let ghost rest = path@.skip(i as int + 1);
            proof {
                lemma_skip_step(path@, i as int);
            }
            match Self::child_index(&self.children, &path[i]) {
                Some(ci) => {
                    proof {
                        Self::lemma_find_child_at(old(self).children@, k, ci as int);
                    }
                    let ghost pre = *old(self);
                    let ghost pre_child = pre.children@[ci as int].1;
                    self.children[ci].1.insert_at(path, i + 1, v);
                    let ghost post_child = self.children@[ci as int].1;
                    proof {
                        assert(self.children@ =~= pre.children@.update(
                            ci as int,
                            (k, post_child),
                        ));
                        Self::lemma_find_child_update(pre.children@, k, ci as int, post_child);
                        self.lemma_insert_at_step(pre, pre_child, post_child, k, full, rest, v);
                    }
                }
                None => {
                    proof {
                        Self::lemma_find_child_none(old(self).children@, k);
                    }
                    let ghost pre = *old(self);
                    let seg = path[i].dup();
                    let node: Trie<K, V> = Trie::new();
                    let ghost pre_child = node;
                    self.children.push((seg, node));
                    let ci: usize = self.children.len() - 1;
                    self.children[ci].1.insert_at(path, i + 1, v);
                    let ghost post_child = self.children@[ci as int].1;
                    proof {
                        assert(self.children@ =~= pre.children@.push((k, post_child)));
                        Self::lemma_find_child_push(pre.children@, k, post_child);
                        self.lemma_insert_at_grow(pre, pre_child, post_child, k, full, rest, v);
                    }
                }
            }
        }
    }
}

} // verus!
