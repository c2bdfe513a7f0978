//! Laws of lookup over the stored entries of a tree, stated with the same
//! functions that the tree's operations are specified with: an insertion
//! gives `m.insert(p, v)`, and a lookup of `p` gives `resolve(m, p)`.
use crate::tree::{resolve, resolve_from};
use vstd::prelude::*;

verus! {

/// A lookup that starts at prefix length `i` finds the value at prefix length
/// `j` when that prefix holds one and none of the prefixes between does.
proof fn lemma_resolve_from_first<K, V>(m: Map<Seq<K>, V>, p: Seq<K>, i: nat, j: nat)
    requires
        i <= j <= p.len(),
        m.contains_key(p.take(j as int)),
        forall|l: nat| i <= l < j ==> !#[trigger] m.contains_key(p.take(l as int)),
    ensures
        resolve_from(m, p, i) == Some(m[p.take(j as int)]),
    decreases j - i,
{
    if i < j {
        lemma_resolve_from_first(m, p, i + 1, j);
    }
}

/// A lookup that starts at prefix length `i` finds nothing when no prefix from
/// that length on holds a value.
proof fn lemma_resolve_from_none<K, V>(m: Map<Seq<K>, V>, p: Seq<K>, i: nat)
    requires
        i <= p.len(),
        forall|l: nat| i <= l <= p.len() ==> !#[trigger] m.contains_key(p.take(l as int)),
    ensures
        resolve_from(m, p, i) is None,
    decreases p.len() - i,
{
    if i < p.len() {
        lemma_resolve_from_none(m, p, i + 1);
    }
}

/// A lookup finds the value at the prefix of length `j` when that prefix holds
/// one and no shorter prefix does.
pub proof fn lemma_resolve_first<K, V>(m: Map<Seq<K>, V>, p: Seq<K>, j: nat)
    requires
        j <= p.len(),
        m.contains_key(p.take(j as int)),
        forall|l: nat| l < j ==> !#[trigger] m.contains_key(p.take(l as int)),
    ensures
        resolve(m, p) == Some(m[p.take(j as int)]),
{
    lemma_resolve_from_first(m, p, 0, j);
}

/// A lookup finds nothing on a path none of whose prefixes (the empty path and
/// the path itself included) holds a value.
pub proof fn lemma_missing_branch<K, V>(m: Map<Seq<K>, V>, p: Seq<K>)
    requires
        forall|l: nat| l <= p.len() ==> !#[trigger] m.contains_key(p.take(l as int)),
    ensures
        resolve(m, p) is None,
{
    lemma_resolve_from_none(m, p, 0);
}

/// A lookup in an empty tree finds nothing, whatever the path.
pub proof fn lemma_find_in_empty<K, V>(p: Seq<K>)
    ensures
        resolve(Map::<Seq<K>, V>::empty(), p) is None,
{
    lemma_missing_branch(Map::<Seq<K>, V>::empty(), p);
}

/// After storing `v` at `p`, a lookup of `p` finds `v`, provided that no
/// shorter prefix of `p` held a value.
pub proof fn lemma_insert_then_find<K, V>(m: Map<Seq<K>, V>, p: Seq<K>, v: V)
    requires
        forall|l: nat| l < p.len() ==> !#[trigger] m.contains_key(p.take(l as int)),
    ensures
        resolve(m.insert(p, v), p) == Some(v),
{
    let m2 = m.insert(p, v);
    assert(p.take(p.len() as int) =~= p);
    assert forall|l: nat| l < p.len() implies !#[trigger] m2.contains_key(p.take(l as int)) by {
        assert(p.take(l as int).len() != p.len());
    }
    lemma_resolve_first(m2, p, p.len());
}

/// Storing at the same path twice keeps the second value only: the entries
/// are those of the second insertion alone, and a lookup of the path finds
/// the second value, provided that no shorter prefix of the path held a value.
pub proof fn lemma_overwrite<K, V>(m: Map<Seq<K>, V>, p: Seq<K>, v1: V, v2: V)
    requires
        forall|l: nat| l < p.len() ==> !#[trigger] m.contains_key(p.take(l as int)),
    ensures
        m.insert(p, v1).insert(p, v2) == m.insert(p, v2),
        resolve(m.insert(p, v1).insert(p, v2), p) == Some(v2),
{
    assert(m.insert(p, v1).insert(p, v2) =~= m.insert(p, v2));
    lemma_insert_then_find(m, p, v2);
}

/// A value stored at a path shadows the values stored below it: after storing
/// `v1` at `[a]` and then `v2` at `[a, b]`, lookups of both `[a, b]` and `[a]`
/// find `v1`, provided that the empty path held no value.
pub proof fn lemma_shadowing<K, V>(m: Map<Seq<K>, V>, a: K, b: K, v1: V, v2: V)
    requires
        !m.contains_key(Seq::<K>::empty()),
    ensures
        resolve(m.insert(seq![a], v1).insert(seq![a, b], v2), seq![a, b]) == Some(v1),
        resolve(m.insert(seq![a], v1).insert(seq![a, b], v2), seq![a]) == Some(v1),
{
    let m2 = m.insert(seq![a], v1).insert(seq![a, b], v2);
    let e = Seq::<K>::empty();
    assert(seq![a, b].take(0) =~= e);
    assert(seq![a, b].take(1) =~= seq![a]);
    assert(seq![a].take(0) =~= e);
    assert(seq![a].take(1) =~= seq![a]);
    assert(e.len() != seq![a].len() && e.len() != seq![a, b].len());
    assert(seq![a].len() != seq![a, b].len());
    assert(!m2.contains_key(e));
    lemma_resolve_first(m2, seq![a, b], 1);
    lemma_resolve_first(m2, seq![a], 1);
}

/// Paths that part after a shared first key are independent: after storing
/// `v1` at `[a, b]` and `v2` at `[a, c]`, a lookup of `[a, b]` finds `v1`, one of
/// `[a, c]` finds `v2`, and one of `[a, d]` for another key `d` finds nothing,
/// provided that neither the empty path, nor `[a]`, nor `[a, d]` held a value.
pub proof fn lemma_independent_branches<K, V>(
    m: Map<Seq<K>, V>,
    a: K,
    b: K,
    c: K,
    d: K,
    v1: V,
    v2: V,
)
    requires
        b != c,
        d != b,
        d != c,
        !m.contains_key(Seq::<K>::empty()),
        !m.contains_key(seq![a]),
        !m.contains_key(seq![a, d]),
    ensures
        resolve(m.insert(seq![a, b], v1).insert(seq![a, c], v2), seq![a, b]) == Some(v1),
        resolve(m.insert(seq![a, b], v1).insert(seq![a, c], v2), seq![a, c]) == Some(v2),
        resolve(m.insert(seq![a, b], v1).insert(seq![a, c], v2), seq![a, d]) is None,
{
    let m2 = m.insert(seq![a, b], v1).insert(seq![a, c], v2);
    let e = Seq::<K>::empty();
    assert(seq![a, b] != seq![a, c]) by {
        assert(seq![a, b][1] != seq![a, c][1]);
    }
    assert(seq![a, d] != seq![a, b]) by {
        assert(seq![a, d][1] != seq![a, b][1]);
    }
    assert(seq![a, d] != seq![a, c]) by {
        assert(seq![a, d][1] != seq![a, c][1]);
    }
    assert(e.len() != seq![a].len() && e.len() != seq![a, b].len());
    assert(seq![a].len() != seq![a, b].len());
    assert(!m2.contains_key(e));
    assert(!m2.contains_key(seq![a]));
    assert(seq![a, b].take(2) =~= seq![a, b]);
    assert(seq![a, c].take(2) =~= seq![a, c]);
    assert(seq![a, d].take(0) =~= e);
    assert(seq![a, d].take(1) =~= seq![a]);
    assert(seq![a, d].take(2) =~= seq![a, d]);
    assert(seq![a, b].take(0) =~= e);
    assert(seq![a, b].take(1) =~= seq![a]);
    assert(seq![a, c].take(0) =~= e);
    assert(seq![a, c].take(1) =~= seq![a]);
    lemma_resolve_first(m2, seq![a, b], 2);
    lemma_resolve_first(m2, seq![a, c], 2);
    lemma_missing_branch(m2, seq![a, d]);
}

/// A value stored at the empty path is found by a lookup of the empty path,
/// and of every other path too: the root's own value shadows all the others.
pub proof fn lemma_empty_path<K, V>(m: Map<Seq<K>, V>, v: V, p: Seq<K>)
    ensures
        resolve(m.insert(Seq::<K>::empty(), v), Seq::<K>::empty()) == Some(v),
        resolve(m.insert(Seq::<K>::empty(), v), p) == Some(v),
{
    let m2 = m.insert(Seq::<K>::empty(), v);
    assert(p.take(0) =~= Seq::<K>::empty());
    assert(Seq::<K>::empty().take(0) =~= Seq::<K>::empty());
    lemma_resolve_first(m2, p, 0);
    lemma_resolve_first(m2, Seq::<K>::empty(), 0);
}

} // verus!
