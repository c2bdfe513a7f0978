use std::collections::HashMap;
use std::hash::Hash;
use vstd::prelude::*;
use vstd::std_specs::hash::obeys_key_model;

verus! {

broadcast use vstd::std_specs::hash::group_hash_axioms;

/// What the tree needs of its key type: hashing and equality that agree with
/// identity, and a `clone` that yields an equal key.
pub open spec fn key_type_ok<K: Eq + Hash + Clone>() -> bool {
    &&& obeys_key_model::<K>()
    &&& forall|a: K, b: K| #[trigger] call_ensures(K::clone, (&a,), b) ==> a == b
}

/// The value found by a lookup of `p` in the entries `m`, starting at the
/// prefix of length `i`: the value at the shortest stored prefix that is at
/// least `i` keys long.
pub open spec fn resolve_from<K, V>(m: Map<Seq<K>, V>, p: Seq<K>, i: nat) -> Option<V>
    decreases p.len() - i,
{
    if m.contains_key(p.take(i as int)) {
        Some(m[p.take(i as int)])
    } else if i >= p.len() {
        None
    } else {
        resolve_from(m, p, i + 1)
    }
}

/// The value found by a lookup of `p` in the entries `m`: the value stored at
/// the shortest prefix of `p` (the empty path and `p` itself included) that
/// holds one, or `None` where no prefix does.
pub open spec fn resolve<K, V>(m: Map<Seq<K>, V>, p: Seq<K>) -> Option<V> {
    resolve_from(m, p, 0)
}

/// `s` is a prefix of the part of `keys` that starts at position `d`.
pub open spec fn on_path<K>(s: Seq<K>, keys: Seq<K>, d: int) -> bool {
    &&& d + s.len() <= keys.len()
    &&& forall|i: int| 0 <= i < s.len() ==> #[trigger] s[i] == keys[d + i]
}

/// The prefixes of `p`, from the empty path up to `p` itself.
pub open spec fn prefixes<K>(p: Seq<K>) -> Set<Seq<K>> {
    Set::new(|s: Seq<K>| s.len() <= p.len() && s == p.take(s.len() as int))
}

/// The empty path and every prefix of a path that holds a value in `m`.
pub open spec fn stored_prefixes<K, V>(m: Map<Seq<K>, V>) -> Set<Seq<K>> {
    Set::new(
        |s: Seq<K>|
            s.len() == 0 || exists|q: Seq<K>| #[trigger] m.contains_key(q) && prefixes(q).contains(s),
    )
}

/// A tree that maps paths (sequences of keys) to values.
pub struct Tree<K, V> {
    root: Box<TreeNode<K, V>>,
}

/// One node of a tree: the value stored at the path that ends here, the
/// children by key, and the number of keys between the root and this node.
struct TreeNode<K, V> {
    value: Option<V>,
    children: HashMap<K, Box<TreeNode<K, V>>>,
    index: usize,
}

impl<K, V> TreeNode<K, V> {
    /// The node reached from this one by following the keys of `s`.
    spec fn reach(self, s: Seq<K>) -> Option<TreeNode<K, V>>
        decreases s.len(),
    {
        if s.len() == 0 {
            Some(self)
        } else if self.children@.contains_key(s[0]) {
            (*self.children@[s[0]]).reach(s.drop_first())
        } else {
            None
        }
    }

    /// The value stored at the relative path `s`.
    spec fn entry(self, s: Seq<K>) -> Option<V> {
        match self.reach(s) {
            Some(n) => n.value,
            None => None,
        }
    }

    /// Every stored value, by its path relative to this node.
    spec fn entries(self) -> Map<Seq<K>, V> {
        Map::new(|s: Seq<K>| self.entry(s) is Some, |s: Seq<K>| self.entry(s)->Some_0)
    }

    /// Each node below this one records its distance from the root.
    spec fn wf(self) -> bool {
        forall|s: Seq<K>| #[trigger] self.reach(s) is Some ==> self.reach(s)->Some_0.index
            == self.index + s.len()
    }
}

impl<K: Eq + Hash + Clone, V> TreeNode<K, V> {
    /// An empty node at the given distance from the root.
    fn new(index: usize) -> (r: TreeNode<K, V>)
        ensures
            r.wf(),
            r.index == index,
            r.value is None,
            r.children@ == Map::<K, Box<TreeNode<K, V>>>::empty(),
            forall|s: Seq<K>| #[trigger] r.entry(s) is None,
            forall|s: Seq<K>| #[trigger] r.reach(s) is Some <==> s.len() == 0,
    {
        let r = TreeNode { value: None, children: HashMap::new(), index };
        assert forall|s: Seq<K>| #[trigger] r.reach(s) is Some implies r.reach(s)->Some_0.index
            == r.index + s.len() by {
            if s.len() > 0 {
                assert(!r.children@.contains_key(s[0]));
            }
        }
        assert forall|s: Seq<K>| #[trigger] r.entry(s) is None by {
            if s.len() > 0 {
                assert(!r.children@.contains_key(s[0]));
            }
        }
        assert forall|s: Seq<K>| #[trigger] r.reach(s) is Some <==> s.len() == 0 by {
            if s.len() > 0 {
                assert(!r.children@.contains_key(s[0]));
            }
        }
        r
    }

    /// Looks up `keys` from this node: the value here if there is one, else
    /// the lookup goes on in the child for the next key, if any.
    fn find_recursively<'a>(&'a self, keys: &Vec<K>) -> (r: Option<&'a V>)
        requires
            self.wf(),
            key_type_ok::<K>(),
        ensures
            self.value is Some ==> r is Some && *r->Some_0 == self.value->Some_0,
            self.value is None && self.index >= keys@.len() ==> r is None,
            self.index <= keys@.len() ==> match r {
                Some(v) => resolve(self.entries(), keys@.skip(self.index as int)) == Some(*v),
                None => resolve(self.entries(), keys@.skip(self.index as int)) is None,
            },
        decreases keys@.len() - self.index,
    {
        let ghost s = keys@.skip(self.index as int);
        if let Some(v) = &self.value {
            proof {
                if self.index <= keys@.len() {
                    assert(s.take(0) =~= Seq::<K>::empty());
                }
            }
            return Some(v);
        }
        if self.index >= keys.len() {
            proof {
                if self.index <= keys@.len() {
                    assert(s.take(0) =~= Seq::<K>::empty());
                }
            }
            return None;
        }
        let k = &keys[self.index];
        proof {
            assert(s[0] == *k);
            lemma_resolve_step(*self, s);
        }
        match self.children.get(k) {
            Some(node) => {
                proof {
                    lemma_child_wf(*self, *k);
                    assert(s.drop_first() =~= keys@.skip(node.index as int));
                }
                node.find_recursively(keys)
            },
            None => None,
        }
    }

    /// Stores `v` at the path `keys`, counted from this node's depth:
    /// here if the path ends here, else in the child for the next key, which
    /// is created if missing. The nodes along the path that were missing are
    /// created, and no node is removed.
    fn insert_recursively(&mut self, keys: &Vec<K>, v: V)
        requires
            old(self).wf(),
            key_type_ok::<K>(),
        ensures
            final(self).wf(),
            final(self).index == old(self).index,
            old(self).index <= keys@.len() ==> final(self).entries() == old(self).entries().insert(
                keys@.skip(old(self).index as int),
                v,
            ),
            forall|s: Seq<K>| #[trigger]
                final(self).reach(s) is Some <==> (old(self).reach(s) is Some || on_path(
                    s,
                    keys@,
                    old(self).index as int,
                )),
            old(self).index >= keys@.len() ==> final(self).value == Some(v)
                && final(self).children@ == old(self).children@,
            old(self).index < keys@.len() ==> {
                let k = keys@[old(self).index as int];
                &&& final(self).value == old(self).value
                &&& final(self).children@.dom() == old(self).children@.dom().insert(k)
                &&& forall|j: K|
                    j != k && #[trigger] old(self).children@.contains_key(j)
                        ==> final(self).children@[j] == old(self).children@[j]
            },
        decreases keys@.len() - old(self).index,
    {
        let ghost pre = *self;
        let ghost p = keys@.skip(self.index as int);
        if self.index >= keys.len() {
            self.value = Some(v);
            proof {
                let post = *self;
                assert forall|s: Seq<K>| s.len() > 0 implies #[trigger] post.reach(s) == pre.reach(
                    s,
                ) by {}
                assert forall|s: Seq<K>| #[trigger] post.reach(s) is Some implies post.reach(
                    s,
                )->Some_0.index == post.index + s.len() by {
                    if s.len() > 0 {
                        assert(pre.reach(s) is Some);
                    }
                }
                if pre.index <= keys@.len() {
                    assert(p =~= Seq::<K>::empty());
                    assert forall|s: Seq<K>| #[trigger] post.entry(s) == (if s == p {
                        Some(v)
                    } else {
                        pre.entry(s)
                    }) by {
                        if s.len() > 0 {
                            assert(post.reach(s) == pre.reach(s));
                        } else {
                            assert(s =~= p);
                        }
                    }
                    assert(post.entries() =~= pre.entries().insert(p, v));
                }
                assert forall|s: Seq<K>| #[trigger] post.reach(s) is Some <==> (pre.reach(s) is Some
                    || on_path(s, keys@, pre.index as int)) by {
                    if s.len() > 0 {
                        assert(post.reach(s) == pre.reach(s));
                    }
                }
            }
        } else {
            let k = &keys[self.index];
            let mut child = match self.children.remove(k) {
                Some(c) => c,
                None => Box::new(TreeNode::new(self.index + 1)),
            };
            proof {
                if pre.children@.contains_key(*k) {
                    lemma_child_wf(pre, *k);
                }
                assert(p.drop_first() =~= keys@.skip(child.index as int));
            }
            let ghost c0 = *child;
            child.insert_recursively(keys, v);
            let key = k.clone();
            self.children.insert(key, child);
            proof {
                let post = *self;
                let c1 = *child;
                assert(post.children@ == pre.children@.insert(*k, child));
                lemma_insert_child(pre, post, *k, c1);
                assert(p[0] == *k);
                assert forall|s: Seq<K>| #[trigger] post.entry(s) == (if s == p {
                    Some(v)
                } else {
                    pre.entry(s)
                }) by {
                    if s.len() > 0 && s[0] == *k {
                        let t = s.drop_first();
                        assert(s == p <==> t == p.drop_first()) by {
                            if t == p.drop_first() {
                                assert(s =~= seq![s[0]].add(t));
                                assert(p =~= seq![p[0]].add(p.drop_first()));
                            }
                        }
                        lemma_entry_in_entries(c1, t);
                        lemma_entry_in_entries(c0, t);
                        assert(pre.entry(s) == c0.entry(t));
                    } else {
                        assert(s != p);
                    }
                }
                assert(post.entries() =~= pre.entries().insert(p, v));
                let d = pre.index as int;
                assert forall|s: Seq<K>| #[trigger] post.reach(s) is Some <==> (pre.reach(s) is Some
                    || on_path(s, keys@, d)) by {
                    if s.len() > 0 && s[0] == *k {
                        let t = s.drop_first();
                        assert(on_path(s, keys@, d) <==> on_path(t, keys@, d + 1)) by {
                            if on_path(t, keys@, d + 1) {
                                assert forall|i: int| 0 <= i < s.len() implies #[trigger] s[i]
                                    == keys@[d + i] by {
                                    if i > 0 {
                                        assert(s[i] == t[i - 1]);
                                    }
                                }
                            }
                            if on_path(s, keys@, d) {
                                assert forall|i: int| 0 <= i < t.len() implies #[trigger] t[i]
                                    == keys@[d + 1 + i] by {
                                    assert(s[i + 1] == keys@[d + (i + 1)]);
                                }
                            }
                        }
                        if t.len() == 0 {
                            assert(on_path(t, keys@, d + 1));
                        }
                    } else if s.len() > 0 {
                        assert(s[0] != keys@[d + 0]);
                    }
                }
                assert(post.children@.dom() =~= pre.children@.dom().insert(*k));
            }
        }
    }
}

/// The nodes and entries below a child are those below its parent under the
/// child's key, and a child of a well-formed node is well formed one level
/// deeper.
proof fn lemma_child_wf<K, V>(n: TreeNode<K, V>, k: K)
    requires
        n.wf(),
        n.children@.contains_key(k),
    ensures
        n.children@[k].wf(),
        n.children@[k].index == n.index + 1,
        forall|t: Seq<K>| #[trigger] n.children@[k].reach(t) == n.reach(seq![k].add(t)),
{
    let c = *n.children@[k];
    assert forall|t: Seq<K>| #[trigger] c.reach(t) == n.reach(seq![k].add(t)) by {
        let s = seq![k].add(t);
        assert(s[0] == k);
        assert(s.drop_first() =~= t);
    }
    let e = Seq::<K>::empty();
    assert(c.reach(e) is Some);
    assert(seq![k].add(e).len() == 1);
    assert(c.index == n.index + 1);
    assert forall|t: Seq<K>| #[trigger] c.reach(t) is Some implies c.reach(t)->Some_0.index
        == c.index + t.len() by {
        assert(n.reach(seq![k].add(t)) is Some);
    }
}

/// A node's entry at a path is what its entries map holds there.
proof fn lemma_entry_in_entries<K, V>(n: TreeNode<K, V>, t: Seq<K>)
    ensures
        n.entry(t) == (if n.entries().contains_key(t) {
            Some(n.entries()[t])
        } else {
            None
        }),
{
}

/// Past the first key, a lookup from a node without a value is a lookup from
/// the child for that key.
proof fn lemma_resolve_from_step<K, V>(n: TreeNode<K, V>, s: Seq<K>, i: nat)
    requires
        s.len() > 0,
        i < s.len(),
    ensures
        resolve_from(n.entries(), s, i + 1) == (if n.children@.contains_key(s[0]) {
            resolve_from(n.children@[s[0]].entries(), s.drop_first(), i)
        } else {
            None
        }),
    decreases s.len() - i,
{
    let t = s.take(i + 1 as int);
    let u = s.drop_first().take(i as int);
    assert(t.len() > 0 && t[0] == s[0]);
    assert(t.drop_first() =~= u);
    if i + 1 < s.len() {
        lemma_resolve_from_step(n, s, i + 1);
    }
}

/// A lookup from a node without a value, on a non-empty path, is a lookup
/// from the child for the path's first key, or finds nothing if there is none.
proof fn lemma_resolve_step<K, V>(n: TreeNode<K, V>, s: Seq<K>)
    requires
        n.value is None,
        s.len() > 0,
    ensures
        resolve(n.entries(), s) == (if n.children@.contains_key(s[0]) {
            resolve(n.children@[s[0]].entries(), s.drop_first())
        } else {
            None
        }),
{
    assert(s.take(0) =~= Seq::<K>::empty());
    assert(!n.entries().contains_key(s.take(0)));
    lemma_resolve_from_step(n, s, 0);
}

/// Replacing one child keeps the entries under other keys, and the node is
/// well formed if the new child is, one level deeper.
proof fn lemma_insert_child<K, V>(
    pre: TreeNode<K, V>,
    post: TreeNode<K, V>,
    k: K,
    c1: TreeNode<K, V>,
)
    requires
        pre.wf(),
        post.value == pre.value,
        post.index == pre.index,
        post.children@ == pre.children@.insert(k, Box::new(c1)),
        c1.wf(),
        c1.index == pre.index + 1,
    ensures
        post.wf(),
        forall|s: Seq<K>|
            s.len() > 0 && s[0] == k ==> #[trigger] post.entry(s) == c1.entry(s.drop_first()),
        forall|s: Seq<K>| !(s.len() > 0 && s[0] == k) ==> #[trigger] post.entry(s) == pre.entry(s),
        forall|s: Seq<K>|
            s.len() > 0 && s[0] == k ==> #[trigger] post.reach(s) == c1.reach(s.drop_first()),
        forall|s: Seq<K>|
            s.len() > 0 && s[0] != k ==> #[trigger] post.reach(s) == pre.reach(s),
{
    assert forall|s: Seq<K>| #[trigger] post.reach(s) is Some implies post.reach(s)->Some_0.index
        == post.index + s.len() by {
        if s.len() > 0 && s[0] == k {
            assert(c1.reach(s.drop_first()) is Some);
        } else if s.len() > 0 {
            assert(pre.reach(s) is Some);
        }
    }
}

impl<K, V> View for Tree<K, V> {
    type V = Map<Seq<K>, V>;

    /// The stored values, by path.
    closed spec fn view(&self) -> Map<Seq<K>, V> {
        self.root.entries()
    }
}

impl<K: Eq + Hash + Clone, V> Tree<K, V> {
    /// The paths at which the tree has a node, whether or not it holds a
    /// value there.
    pub closed spec fn paths(&self) -> Set<Seq<K>> {
        Set::new(|s: Seq<K>| self.root.reach(s) is Some)
    }

    /// The tree's invariant: the root is at depth zero, every node records
    /// its depth, and the nodes are those of the root and of the prefixes of
    /// the stored paths.
    pub closed spec fn wf(&self) -> bool {
        &&& self.root.index == 0
        &&& self.root.wf()
        &&& self.paths() == stored_prefixes(self@)
    }

    /// In a valid tree, a node stands at the empty path and at each prefix of
    /// a path that holds a value, and nowhere else.
    pub proof fn lemma_paths_are_stored_prefixes(&self)
        requires
            self.wf(),
        ensures
            self.paths() == stored_prefixes(self@),
    {
    }

    /// Creates an empty tree: one node, at the empty path, with no value.
    pub fn new() -> (r: Tree<K, V>)
        ensures
            r.wf(),
            r@ == Map::<Seq<K>, V>::empty(),
            r.paths() == set![Seq::<K>::empty()],
    {
        let root = TreeNode::new(0);
        let r = Tree { root: Box::new(root) };
        assert(r@ =~= Map::<Seq<K>, V>::empty());
        assert(r.paths() =~= set![Seq::<K>::empty()]) by {
            assert forall|s: Seq<K>| s.len() == 0 implies s == Seq::<K>::empty() by {
                assert(s =~= Seq::<K>::empty());
            }
        }
        assert(stored_prefixes(r@) =~= set![Seq::<K>::empty()]) by {
            assert forall|s: Seq<K>| s.len() == 0 implies s == Seq::<K>::empty() by {
                assert(s =~= Seq::<K>::empty());
            }
        }
        r
    }

    /// Returns the value stored at the shortest prefix of `keys` that holds
    /// one (the empty path and `keys` itself included): a value stored along
    /// the way shadows every value stored deeper on the same branch. Returns
    /// `None` when no prefix of `keys` holds a value.
    pub fn find_recursively<'a>(&'a self, keys: &Vec<K>) -> (r: Option<&'a V>)
        requires
            self.wf(),
            key_type_ok::<K>(),
        ensures
            match r {
                Some(v) => resolve(self@, keys@) == Some(*v),
                None => resolve(self@, keys@) is None,
            },
    {
        proof {
            assert(keys@.skip(0) =~= keys@);
        }
        self.root.find_recursively(keys)
    }

    /// Stores `v` at the path `keys`, replacing the value stored there before,
    /// if any. Every other path keeps its value. A node is created at each
    /// prefix of `keys` that had none, and no node is removed.
    pub fn insert_recursively(&mut self, keys: &Vec<K>, v: V)
        requires
            old(self).wf(),
            key_type_ok::<K>(),
        ensures
            final(self).wf(),
            final(self)@ == old(self)@.insert(keys@, v),
            final(self).paths() == old(self).paths().union(prefixes(keys@)),
    {
        let ghost pre = *self;
        proof {
            assert(keys@.skip(0) =~= keys@);
        }
        self.root.insert_recursively(keys, v);
        proof {
            let p = keys@;
            assert forall|s: Seq<K>| on_path(s, p, 0) <==> #[trigger] prefixes(p).contains(s) by {
                if on_path(s, p, 0) {
                    assert(s =~= p.take(s.len() as int));
                }
                if prefixes(p).contains(s) {
                    assert forall|i: int| 0 <= i < s.len() implies #[trigger] s[i] == p[0 + i] by {
                        assert(s[i] == p.take(s.len() as int)[i]);
                    }
                }
            }
            assert(self.paths() =~= pre.paths().union(prefixes(p)));
            let m = pre@;
            assert(stored_prefixes(self@) =~= stored_prefixes(m).union(prefixes(p))) by {
                assert forall|s: Seq<K>| #[trigger] prefixes(p).contains(s) implies stored_prefixes(
                    self@,
                ).contains(s) by {
                    assert(self@.contains_key(p));
                }
                assert forall|s: Seq<K>| #[trigger] stored_prefixes(m).contains(s) implies stored_prefixes(
                    self@,
                ).contains(s) by {
                    if s.len() > 0 {
                        let q = choose|q: Seq<K>| #[trigger] m.contains_key(q) && prefixes(q).contains(s);
                        assert(self@.contains_key(q));
                    }
                }
                assert forall|s: Seq<K>| #[trigger] stored_prefixes(self@).contains(s) implies stored_prefixes(
                    m,
                ).contains(s) || prefixes(p).contains(s) by {
                    if s.len() > 0 {
                        let q = choose|q: Seq<K>| #[trigger] self@.contains_key(q) && prefixes(q).contains(s);
                        if q != p {
                            assert(m.contains_key(q));
                        }
                    }
                }
            }
        }
    }
}

} // verus!
