//! The meaning of a trie as a finite map from keys (sequences of symbols) to
//! values, the effect of each operation on that map, and the laws they obey.

use vstd::prelude::*;

verus! {

/// A key has a value.
pub open spec fn holds_key<T, U>(m: Map<Seq<T>, U>, k: Seq<T>) -> bool {
    m.contains_key(k)
}

/// The value stored under a key, if any.
pub open spec fn lookup<T, U>(m: Map<Seq<T>, U>, k: Seq<T>) -> Option<U> {
    if m.contains_key(k) {
        Some(m[k])
    } else {
        None
    }
}

/// Inserting: the key gets the value, whether it had one or not.
pub open spec fn with_entry<T, U>(m: Map<Seq<T>, U>, k: Seq<T>, v: U) -> Map<Seq<T>, U> {
    m.insert(k, v)
}

/// Setting: only a key that already has a value gets the new one.
pub open spec fn with_update<T, U>(m: Map<Seq<T>, U>, k: Seq<T>, v: U) -> Map<Seq<T>, U> {
    if m.contains_key(k) {
        m.insert(k, v)
    } else {
        m
    }
}

/// No key of one symbol or more has a value, so the root has no child.
pub open spec fn has_no_branch<T, U>(m: Map<Seq<T>, U>) -> bool {
    forall|k: Seq<T>| m.contains_key(k) ==> k.len() == 0
}

/// The map that a fresh trie holds after inserting the given pairs in order.
pub open spec fn from_insertions<T, U>(pairs: Seq<(Seq<T>, U)>) -> Map<Seq<T>, U>
    decreases pairs.len(),
{
    if pairs.len() == 0 {
        Map::empty()
    } else {
        with_entry(from_insertions(pairs.drop_last()), pairs.last().0, pairs.last().1)
    }
}


/// After inserting a value under a key, the key is present and holds that value.
pub proof fn lemma_insert_then_find<T, U>(m: Map<Seq<T>, U>, k: Seq<T>, v: U)
    ensures
        holds_key(with_entry(m, k, v), k),
        lookup(with_entry(m, k, v), k) == Some(v),
{
}

/// A key that none of the insertions into a fresh trie used is absent and
/// has no value, even where it is a prefix of inserted keys.
pub proof fn lemma_never_inserted<T, U>(pairs: Seq<(Seq<T>, U)>, k: Seq<T>)
    requires
        forall|i: int| 0 <= i < pairs.len() ==> (#[trigger] pairs[i]).0 != k,
    ensures
        !holds_key(from_insertions(pairs), k),
        lookup(from_insertions(pairs), k) is None,
    decreases pairs.len(),
{
    if pairs.len() > 0 {
        let rest = pairs.drop_last();
        assert forall|i: int| 0 <= i < rest.len() implies (#[trigger] rest[i]).0 != k by {
            assert(rest[i] == pairs[i]);
        }
        lemma_never_inserted(rest, k);
        assert(pairs[pairs.len() - 1] == pairs.last());
    }
}

/// Inserting under one key leaves every other key as it was, among them
/// the key's own prefixes and the keys that extend it.
pub proof fn lemma_insert_keeps_others<T, U>(m: Map<Seq<T>, U>, k: Seq<T>, v: U, other: Seq<T>)
    requires
        other != k,
    ensures
        holds_key(with_entry(m, k, v), other) == holds_key(m, other),
        lookup(with_entry(m, k, v), other) == lookup(m, other),
{
}

/// Inserting twice under one key is the same as inserting the second value
/// once: one entry for the key, holding the later value.
pub proof fn lemma_insert_twice<T, U>(m: Map<Seq<T>, U>, k: Seq<T>, v1: U, v2: U)
    requires
        m.dom().finite(),
    ensures
        with_entry(with_entry(m, k, v1), k, v2) == with_entry(m, k, v2),
        with_entry(with_entry(m, k, v1), k, v2).dom().len() == with_entry(m, k, v1).dom().len(),
        lookup(with_entry(with_entry(m, k, v1), k, v2), k) == Some(v2),
{
    assert(with_entry(with_entry(m, k, v1), k, v2) =~= with_entry(m, k, v2));
    assert(with_entry(with_entry(m, k, v1), k, v2).dom() =~= with_entry(m, k, v1).dom());
}

/// Setting the value of a key that has none changes nothing: the key stays
/// absent.
pub proof fn lemma_set_absent<T, U>(m: Map<Seq<T>, U>, k: Seq<T>, v: U)
    requires
        !holds_key(m, k),
    ensures
        with_update(m, k, v) == m,
        !holds_key(with_update(m, k, v), k),
        lookup(with_update(m, k, v), k) is None,
{
}

/// A cleared trie has no branch and no key, whatever was in it before.
pub proof fn lemma_cleared<T, U>(k: Seq<T>)
    ensures
        has_no_branch(Map::<Seq<T>, U>::empty()),
        !holds_key(Map::<Seq<T>, U>::empty(), k),
        lookup(Map::<Seq<T>, U>::empty(), k) is None,
{
}

} // verus!
