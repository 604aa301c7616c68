//! One node of the prefix tree: its sorted children and the slot of its value.

use core::cmp::Ordering;
use vstd::laws_cmp::{obeys_cmp, obeys_cmp_ord, obeys_cmp_partial_ord, obeys_partial_cmp_spec_properties};
use vstd::laws_eq::{obeys_concrete_eq, obeys_eq_spec_properties};
use vstd::prelude::*;
use vstd::std_specs::cmp::{OrdSpec, PartialOrdSpec};

verus! {

/// The symbol type's `cmp` is a total order whose `Equal` means equality.
pub open spec fn ordered_symbols<T: Ord>() -> bool {
    &&& obeys_cmp::<T>()
    &&& obeys_concrete_eq::<T>()
}

/// `a` comes strictly before `b`.
pub open spec fn precedes<T: Ord>(a: T, b: T) -> bool {
    a.cmp_spec(&b) == Ordering::Less
}

/// The facts about `cmp` that the tree relies on.
pub proof fn lemma_symbol_order<T: Ord>()
    requires
        ordered_symbols::<T>(),
    ensures
        T::obeys_cmp_spec(),
        forall|a: T, b: T| #[trigger] a.cmp_spec(&b) == Ordering::Equal <==> a == b,
        forall|a: T, b: T| #[trigger] precedes(a, b) <==> b.cmp_spec(&a) == Ordering::Greater,
        forall|a: T, b: T, c: T| #[trigger] precedes(a, b) && #[trigger] precedes(b, c) ==> precedes(a, c),
{
    reveal(obeys_eq_spec_properties);
    reveal(obeys_partial_cmp_spec_properties);
    reveal(obeys_cmp_partial_ord);
    reveal(obeys_cmp_ord);
    reveal(obeys_concrete_eq);
    assert forall|a: T, b: T| #[trigger] a.cmp_spec(&b) == Ordering::Equal <==> a == b by {
        assert(a.partial_cmp_spec(&b) == Some(a.cmp_spec(&b)));
    }
    assert forall|a: T, b: T| #[trigger] precedes(a, b) <==> b.cmp_spec(&a) == Ordering::Greater by {
        assert(a.partial_cmp_spec(&b) == Some(a.cmp_spec(&b)));
        assert(b.partial_cmp_spec(&a) == Some(b.cmp_spec(&a)));
    }
    assert forall|a: T, b: T, c: T| #[trigger] precedes(a, b) && #[trigger] precedes(b, c) implies precedes(a, c) by {
        assert(a.partial_cmp_spec(&b) == Some(a.cmp_spec(&b)));
        assert(b.partial_cmp_spec(&c) == Some(b.cmp_spec(&c)));
        assert(a.partial_cmp_spec(&c) == Some(a.cmp_spec(&c)));
    }
}

/// A node of the tree: the slot of its value, if a key ends here, and its
/// children as (symbol, node index) pairs sorted by symbol.
pub struct TrieNode<T> {
    pub value: Option<usize>,
    pub children: Vec<(T, usize)>,
}

impl<T: Ord + Copy> TrieNode<T> {
    /// Children are strictly ascending by symbol, so no symbol occurs twice.
    pub open spec fn sorted(&self) -> bool {
        forall|i: int, j: int|
            0 <= i < j < self.children@.len() ==> precedes(
                #[trigger] self.children@[i].0,
                #[trigger] self.children@[j].0,
            )
    }

    /// Some child is reached through `s`.
    pub open spec fn has_symbol(&self, s: T) -> bool {
        exists|j: int| 0 <= j < self.children@.len() && #[trigger] self.children@[j].0 == s
    }

    /// A node with the given value slot and no children.
    pub fn new(value: Option<usize>) -> (r: TrieNode<T>)
        ensures
            r.value == value,
            r.children@.len() == 0,
    {
        TrieNode { value, children: Vec::new() }
    }
    /// Binary search for `key`: `Ok` with the position of the child reached
    /// through `key`, or `Err` with the position where such a child would go.
    pub fn search(&self, key: &T) -> (r: Result<usize, usize>)
        requires
            ordered_symbols::<T>(),
            self.sorted(),
        ensures
            match r {
                Ok(i) => i < self.children@.len() && self.children@[i as int].0 == *key,
                Err(i) => {
                    &&& i <= self.children@.len()
                    &&& forall|j: int| 0 <= j < i ==> precedes(#[trigger] self.children@[j].0, *key)
                    &&& forall|j: int| i <= j < self.children@.len() ==> precedes(*key, #[trigger] self.children@[j].0)
                },
            },
            r is Err <==> !self.has_symbol(*key),
    {
        proof {
            lemma_symbol_order::<T>();
        }
        let mut lo: usize = 0;
        let mut hi: usize = self.children.len();
        while lo < hi
            invariant
                lo <= hi <= self.children@.len(),
                ordered_symbols::<T>(),
                self.sorted(),
                forall|j: int| 0 <= j < lo ==> precedes(#[trigger] self.children@[j].0, *key),
                forall|j: int| hi <= j < self.children@.len() ==> precedes(*key, #[trigger] self.children@[j].0),
            decreases hi - lo,
        {
            proof {
                lemma_symbol_order::<T>();
            }
            let mid: usize = lo + (hi - lo) / 2;
            let sym = self.children[mid].0;
            match sym.cmp(key) {
                Ordering::Less => {
                    assert(precedes(self.children@[mid as int].0, *key));
                    assert forall|j: int| 0 <= j < mid + 1 implies precedes(#[trigger] self.children@[j].0, *key) by {
                        if j < mid {
                            assert(precedes(self.children@[j].0, self.children@[mid as int].0));
                        }
                    }
                    lo = mid + 1;
                },
                Ordering::Equal => {
                    return Ok(mid);
                },
                Ordering::Greater => {
                    assert(precedes(*key, self.children@[mid as int].0));
                    assert forall|j: int| mid <= j < self.children@.len() implies precedes(*key, #[trigger] self.children@[j].0) by {
                        if j > mid {
                            assert(precedes(self.children@[mid as int].0, self.children@[j].0));
                        }
                    }
                    hi = mid;
                },
            }
        }
        proof {
            lemma_symbol_order::<T>();
            assert forall|j: int| 0 <= j < self.children@.len() implies #[trigger] self.children@[j].0 != *key by {
                let c = self.children@[j].0;
                if j < lo {
                    assert(precedes(c, *key));
                } else {
                    assert(precedes(*key, c));
                }
                assert(c.cmp_spec(&c) == Ordering::Equal);
            }
        }
        Err(lo)
    }

    /// The index of the child reached through `key`, if there is one.
    pub fn find(&self, key: &T) -> (r: Option<usize>)
        requires
            ordered_symbols::<T>(),
            self.sorted(),
        ensures
            r is None <==> !self.has_symbol(*key),
            r matches Some(c) ==> exists|j: int|
                0 <= j < self.children@.len() && #[trigger] self.children@[j] == (*key, c),
    {
        match self.search(key) {
            Ok(i) => {
                let c = self.children[i].1;
                assert(self.children@[i as int] == (*key, c));
                Some(c)
            },
            Err(_) => None,
        }
    }

    /// Adds a child reached through `key`, a symbol that no child has yet,
    /// at its place in the order.
    pub fn insert(&mut self, key: &T, child_id: usize)
        requires
            ordered_symbols::<T>(),
            old(self).sorted(),
            !old(self).has_symbol(*key),
        ensures
            final(self).sorted(),
            final(self).value == old(self).value,
            exists|pos: int|
                0 <= pos <= old(self).children@.len() && final(self).children@ == old(
                    self,
                ).children@.insert(pos, (*key, child_id)),
    {
        let pos = match self.search(key) {
            Ok(i) => i,
            Err(i) => i,
        };
        let ghost before = self.children@;
        self.children.insert(pos, (*key, child_id));
        proof {
            lemma_symbol_order::<T>();
            let after = self.children@;
            assert(after == before.insert(pos as int, (*key, child_id)));
            assert forall|i: int, j: int| 0 <= i < j < after.len() implies precedes(
                #[trigger] after[i].0,
                #[trigger] after[j].0,
            ) by {
                if j < pos {
                    assert(after[i] == before[i] && after[j] == before[j]);
                } else if j == pos {
                    assert(after[i] == before[i]);
                } else if i < pos {
                    assert(after[i] == before[i] && after[j] == before[j - 1]);
                } else if i == pos {
                    assert(after[j] == before[j - 1]);
                } else {
                    assert(after[i] == before[i - 1] && after[j] == before[j - 1]);
                }
            }
        }
    }

    /// Records the slot of this node's value.
    pub fn set_value(&mut self, value: usize)
        ensures
            final(self).value == Some(value),
            final(self).children == old(self).children,
    {
        self.value = Some(value);
    }

    /// The slot of this node's value, if a key ends here.
    pub fn get_value(&self) -> (r: Option<usize>)
        ensures
            r == self.value,
    {
        self.value
    }

    /// Whether a key ends at this node.
    pub fn may_be_leaf(&self) -> (r: bool)
        ensures
            r == self.value is Some,
    {
        self.value.is_some()
    }
}

} // verus!
