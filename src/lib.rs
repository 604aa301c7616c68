//! A generic prefix tree that maps sequences of ordered symbols to values.
//!
//! Nodes live in one arena and refer to each other by index; each node keeps
//! its children sorted by symbol, so a step down the tree is a binary search.
//! Values live in a second arena, and a node only records the slot of its value.
//!
//! Two choices where the behaviour could go either way:
//! - `set_value` only updates a key that has a value. On a key whose path
//!   exists only as the prefix of longer keys it fails with `NotFound`, as it
//!   does on a key whose path does not exist.
//! - The empty key is a key like any other: its value sits on the root.
//!   Since the root gains no child from it, `is_empty` stays `true`.

pub mod model;
pub mod trie_node;

use model::{has_no_branch, holds_key, lookup, with_entry, with_update};
use trie_node::{ordered_symbols, TrieNode};
use vstd::prelude::*;

verus! {

/// The failure of `set_value` on a key that has no value.
#[derive(Debug, Clone, Copy, PartialEq, Eq, Structural)]
pub struct NotFound;

/// Prefix tree mapping sequences of symbols `T` to values `U`.
///
/// Symbols are copied into the nodes, so a node holds the key's own symbol;
/// values are handed out as clones.
#[verifier::reject_recursive_types(T)]
pub struct Trie<T, U> {
    /// Arena of nodes; index 0 is the root.
    nodes: Vec<TrieNode<T>>,
    /// Arena of values, indexed by the nodes' value slots.
    values: Vec<U>,
    /// The key that leads from the root to each node.
    paths: Ghost<Seq<Seq<T>>>,
    /// The node from which each non-root node hangs.
    parents: Ghost<Seq<int>>,
    /// The node that owns each value slot.
    owners: Ghost<Seq<int>>,
    /// For each non-root node, a key with a value that passes through it.
    extends: Ghost<Seq<Seq<T>>>,
    /// The keys that have a value, with their values.
    entries: Ghost<Map<Seq<T>, U>>,
    /// The node at which each key with a value ends.
    key_nodes: Ghost<Map<Seq<T>, int>>,
}

impl<T, U> View for Trie<T, U> {
    type V = Map<Seq<T>, U>;

    closed spec fn view(&self) -> Map<Seq<T>, U> {
        self.entries@
    }
}

impl<T: Ord + Copy, U: Clone> Trie<T, U> {
    /// The child at position `j` of node `i` ends the path of `i` extended by its symbol.
    spec fn child_ok(&self, i: int, j: int) -> bool {
        let e = self.nodes@[i].children@[j];
        &&& e.1 < self.nodes@.len()
        &&& self.paths@[e.1 as int] == self.paths@[i].push(e.0)
    }

    /// What holds of node `i`; `pending` is a key being inserted whose value
    /// is not set yet.
    spec fn node_ok(&self, i: int, pending: Option<Seq<T>>) -> bool {
        let node = self.nodes@[i];
        let path = self.paths@[i];
        &&& node.sorted()
        &&& forall|j: int| 0 <= j < node.children@.len() ==> #[trigger] self.child_ok(i, j)
        &&& node.value matches Some(v) ==> {
            &&& v < self.values@.len()
            &&& self.owners@[v as int] == i
            &&& self.entries@.contains_key(path)
            &&& self.entries@[path] == self.values@[v as int]
        }
        &&& i > 0 ==> {
            let p = self.parents@[i];
            let ext = self.extends@[i];
            &&& 0 <= p < i
            &&& path.len() > 0
            &&& self.paths@[p] == path.drop_last()
            &&& self.nodes@[p].has_symbol(path.last())
            &&& path.len() <= ext.len()
            &&& ext.subrange(0, path.len() as int) == path
            &&& self.entries@.contains_key(ext) || pending == Some(ext)
        }
    }

    /// The key `k` has a value, held at the node that ends its path.
    spec fn key_ok(&self, k: Seq<T>) -> bool {
        let n = self.key_nodes@[k];
        &&& 0 <= n < self.nodes@.len()
        &&& self.paths@[n] == k
        &&& self.nodes@[n].value is Some
    }

    spec fn inv(&self, pending: Option<Seq<T>>) -> bool {
        &&& ordered_symbols::<T>()
        &&& self.nodes@.len() >= 1
        &&& self.paths@.len() == self.nodes@.len()
        &&& self.parents@.len() == self.nodes@.len()
        &&& self.extends@.len() == self.nodes@.len()
        &&& self.owners@.len() == self.values@.len()
        &&& self.paths@[0] == Seq::<T>::empty()
        &&& forall|i: int| 0 <= i < self.nodes@.len() ==> #[trigger] self.node_ok(i, pending)
        &&& forall|i: int, j: int|
            0 <= i < self.nodes@.len() && 0 <= j < self.nodes@.len() && #[trigger] self.paths@[i]
                == #[trigger] self.paths@[j] ==> i == j
        &&& self.entries@.dom() == self.key_nodes@.dom()
        &&& forall|k: Seq<T>| #[trigger] self.key_nodes@.contains_key(k) ==> self.key_ok(k)
        &&& self.entries@.dom().finite()
        &&& self.values@.len() == self.entries@.dom().len()
    }

    /// The trie is well formed: the symbols are totally ordered, the arenas
    /// agree with each other, and the view lists exactly the keys with a value.
    pub closed spec fn wf(&self) -> bool {
        self.inv(None)
    }

    /// The number of value slots in use.
    pub closed spec fn slots(&self) -> nat {
        self.values@.len()
    }

    /// Each key with a value occupies exactly one value slot, and no slot is
    /// left without a key.
    pub proof fn lemma_one_slot_per_key(&self)
        requires
            self.wf(),
        ensures
            self.slots() == self@.dom().len(),
    {
    }

    /// Following a node's parents leads to a node for each prefix of its path.
    proof fn lemma_ancestor(&self, pending: Option<Seq<T>>, m: int, l: int) -> (a: int)
        requires
            self.inv(pending),
            0 <= m < self.nodes@.len(),
            0 <= l <= self.paths@[m].len(),
        ensures
            0 <= a < self.nodes@.len(),
            self.paths@[a] == self.paths@[m].subrange(0, l),
        decreases m,
    {
        assert(self.node_ok(m, pending));
        if l == self.paths@[m].len() {
            assert(self.paths@[m].subrange(0, l) =~= self.paths@[m]);
            m
        } else {
            let p = self.parents@[m];
            let a = self.lemma_ancestor(pending, p, l);
            assert(self.paths@[m].subrange(0, l) =~= self.paths@[p].subrange(0, l));
            a
        }
    }

    /// No node lies below a child that node `n` does not have.
    proof fn lemma_missing_child(&self, pending: Option<Seq<T>>, n: int, s: T, m: int)
        requires
            self.inv(pending),
            0 <= n < self.nodes@.len(),
            0 <= m < self.nodes@.len(),
            !self.nodes@[n].has_symbol(s),
        ensures
            !(self.paths@[m].len() > self.paths@[n].len() && self.paths@[m].subrange(
                0,
                self.paths@[n].len() + 1int,
            ) == self.paths@[n].push(s)),
    {
        let len: int = self.paths@[n].len() as int;
        if self.paths@[m].len() > len && self.paths@[m].subrange(0, len + 1) == self.paths@[n].push(s) {
            let a = self.lemma_ancestor(pending, m, len + 1);
            assert(self.paths@[a].len() == len + 1);
            assert(a != 0);
            assert(self.node_ok(a, pending));
            let p = self.parents@[a];
            assert(self.paths@[a].drop_last() =~= self.paths@[n]);
            assert(self.paths@[p] == self.paths@[n]);
            assert(p == n);
            assert(self.paths@[a].last() == s);
        }
    }

    /// Creates a trie whose only node is the root, with no value.
    pub fn new() -> (r: Trie<T, U>)
        requires
            ordered_symbols::<T>(),
        ensures
            r.wf(),
            r@ == Map::<Seq<T>, U>::empty(),
            r.slots() == 0,
    {
        let mut nodes: Vec<TrieNode<T>> = Vec::new();
        nodes.push(TrieNode::new(None));
        let ghost root_path = Seq::<T>::empty();
        let r = Trie {
            nodes,
            values: Vec::new(),
            paths: Ghost(Seq::empty().push(root_path)),
            parents: Ghost(Seq::empty().push(0int)),
            owners: Ghost(Seq::empty()),
            extends: Ghost(Seq::empty().push(root_path)),
            entries: Ghost(Map::empty()),
            key_nodes: Ghost(Map::empty()),
        };
        assert(r.node_ok(0, None));
        assert(r.entries@.dom() =~= r.key_nodes@.dom());
        r
    }

    /// Whether the root has no child, that is, no key of one symbol or more
    /// has a value.
    pub fn is_empty(&self) -> (r: bool)
        requires
            self.wf(),
        ensures
            r == has_no_branch(self@),
    {
        let r = self.nodes[0].children.is_empty();
        proof {
            assert(self.node_ok(0, None));
            if !r {
                assert(self.child_ok(0, 0));
                let c = self.nodes@[0].children@[0].1 as int;
                assert(self.paths@[c].len() == 1);
                assert(self.node_ok(c, None));
                assert(self.extends@[c].len() >= 1);
            } else {
                assert forall|k: Seq<T>| self@.contains_key(k) implies k.len() == 0 by {
                    assert(self.key_ok(k));
                    let m = self.key_nodes@[k];
                    if k.len() > 0 {
                        self.lemma_missing_child(None, 0, k[0], m);
                        assert(k.subrange(0, 1) =~= Seq::<T>::empty().push(k[0]));
                    }
                }
            }
        }
        r
    }
    /// Walks `key` down from the root without changing anything: the node
    /// whose path is `key`, or `None` where the walk meets a missing child.
    fn find_node(&self, key: &[T]) -> (r: Option<usize>)
        requires
            self.wf(),
        ensures
            r matches Some(n) ==> n < self.nodes@.len() && self.paths@[n as int] == key@,
            r is None ==> forall|m: int| 0 <= m < self.nodes@.len() ==> self.paths@[m] != key@,
    {
        let mut node_id: usize = 0;
        let mut i: usize = 0;
        while i < key.len()
            invariant
                self.wf(),
                i <= key@.len(),
                node_id < self.nodes@.len(),
                self.paths@[node_id as int] == key@.subrange(0, i as int),
            decreases key@.len() - i,
        {
            assert(self.node_ok(node_id as int, None));
            match self.nodes[node_id].find(&key[i]) {
                Some(child_id) => {
                    proof {
                        let j = choose|j: int|
                            0 <= j < self.nodes@[node_id as int].children@.len()
                                && #[trigger] self.nodes@[node_id as int].children@[j] == (key@[i as int], child_id);
                        assert(self.child_ok(node_id as int, j));
                        assert(key@.subrange(0, i + 1) =~= key@.subrange(0, i as int).push(key@[i as int]));
                    }
                    node_id = child_id;
                },
                None => {
                    proof {
                        assert forall|m: int| 0 <= m < self.nodes@.len() implies self.paths@[m] != key@ by {
                            self.lemma_missing_child(None, node_id as int, key@[i as int], m);
                            assert(key@.subrange(0, i + 1) =~= key@.subrange(0, i as int).push(key@[i as int]));
                        }
                    }
                    return None;
                },
            }
            i = i + 1;
        }
        assert(key@.subrange(0, i as int) =~= key@);
        Some(node_id)
    }

    /// Whether `key` has a value. A key that is only a prefix of other keys
    /// has none.
    pub fn contains_key(&self, key: &[T]) -> (r: bool)
        requires
            self.wf(),
        ensures
            r == holds_key(self@, key@),
    {
        match self.find_node(key) {
            Some(node_id) => {
                proof {
                    assert(self.node_ok(node_id as int, None));
                    if self@.contains_key(key@) {
                        assert(self.key_ok(key@));
                    }
                }
                self.nodes[node_id].may_be_leaf()
            },
            None => {
                proof {
                    if self@.contains_key(key@) {
                        assert(self.key_ok(key@));
                    }
                }
                false
            },
        }
    }

    /// A copy of the value of `key`, if it has one.
    pub fn get_value(&self, key: &[T]) -> (r: Option<U>)
        requires
            self.wf(),
        ensures
            r is Some <==> lookup(self@, key@) is Some,
            r matches Some(v) ==> cloned(lookup(self@, key@)->0, v),
    {
        match self.find_node(key) {
            Some(node_id) => {
                proof {
                    assert(self.node_ok(node_id as int, None));
                    if self@.contains_key(key@) {
                        assert(self.key_ok(key@));
                    }
                }
                match self.nodes[node_id].get_value() {
                    Some(value_id) => Some(self.values[value_id].clone()),
                    None => None,
                }
            },
            None => {
                proof {
                    if self@.contains_key(key@) {
                        assert(self.key_ok(key@));
                    }
                }
                None
            },
        }
    }
    /// Replaces the value of `key`, which must already have one; otherwise
    /// fails with `NotFound` and leaves the trie as it was. The nodes never
    /// change, and neither does the number of value slots.
    pub fn set_value(&mut self, key: &[T], value: U) -> (r: Result<(), NotFound>)
        requires
            old(self).wf(),
        ensures
            final(self).wf(),
            r is Ok <==> holds_key(old(self)@, key@),
            final(self)@ == with_update(old(self)@, key@, value),
            final(self).slots() == old(self).slots(),
    {
        match self.find_node(key) {
            Some(node_id) => {
                assert(self.node_ok(node_id as int, None));
                match self.nodes[node_id].get_value() {
                    Some(value_id) => {
                        self.values.set(value_id, value);
                        self.entries = Ghost(self.entries@.insert(key@, value));
                        proof {
                            assert(self.entries@.dom() =~= old(self).entries@.dom());
                            assert forall|i: int| 0 <= i < self.nodes@.len() implies #[trigger] self.node_ok(i, None) by {
                                assert(old(self).node_ok(i, None));
                                if i > 0 {
                                    assert(old(self).node_ok(self.parents@[i], None));
                                }
                                assert forall|j: int| 0 <= j < self.nodes@[i].children@.len() implies #[trigger] self.child_ok(i, j) by {
                                    assert(old(self).child_ok(i, j));
                                }
                            }
                            assert forall|k: Seq<T>| #[trigger] self.key_nodes@.contains_key(k) implies self.key_ok(k) by {
                                assert(old(self).key_ok(k));
                            }
                        }
                        Ok(())
                    },
                    None => {
                        proof {
                            if self@.contains_key(key@) {
                                assert(self.key_ok(key@));
                            }
                        }
                        Err(NotFound)
                    },
                }
            },
            None => {
                proof {
                    if self@.contains_key(key@) {
                        assert(self.key_ok(key@));
                    }
                }
                Err(NotFound)
            },
        }
    }

    /// Removes every key: a fresh root is the only node left, and the value
    /// arena is empty.
    pub fn clear(&mut self)
        requires
            old(self).wf(),
        ensures
            final(self).wf(),
            final(self)@ == Map::<Seq<T>, U>::empty(),
            final(self).slots() == 0,
    {
        self.nodes.clear();
        self.values.clear();
        self.nodes.push(TrieNode::new(None));
        let ghost root_path = Seq::<T>::empty();
        self.paths = Ghost(Seq::empty().push(root_path));
        self.parents = Ghost(Seq::empty().push(0int));
        self.owners = Ghost(Seq::empty());
        self.extends = Ghost(Seq::empty().push(root_path));
        self.entries = Ghost(Map::empty());
        self.key_nodes = Ghost(Map::empty());
        assert(self.node_ok(0, None));
        assert(self.entries@.dom() =~= self.key_nodes@.dom());
    }
    /// Appends a node with no children and no value to the arena and returns
    /// its index.
    fn create_new_node(&mut self) -> (r: usize)
        ensures
            r == old(self).nodes@.len(),
            final(self).nodes@.len() == old(self).nodes@.len() + 1,
            forall|i: int| 0 <= i < r ==> #[trigger] final(self).nodes@[i] == old(self).nodes@[i],
            final(self).nodes@[r as int].value is None,
            final(self).nodes@[r as int].children@.len() == 0,
            final(self).values == old(self).values,
            final(self).paths == old(self).paths,
            final(self).parents == old(self).parents,
            final(self).owners == old(self).owners,
            final(self).extends == old(self).extends,
            final(self).entries == old(self).entries,
            final(self).key_nodes == old(self).key_nodes,
    {
        self.nodes.push(TrieNode::new(None));
        self.nodes.len() - 1
    }

    /// The child of `node_id` reached through `sym`, created if missing.
    /// `target` is the key being inserted, which runs through that child.
    fn insert_child(&mut self, node_id: usize, sym: T, target: Ghost<Seq<T>>) -> (r: usize)
        requires
            old(self).inv(Some(target@)),
            node_id < old(self).nodes@.len(),
            old(self).paths@[node_id as int].len() < target@.len(),
            target@.subrange(0, old(self).paths@[node_id as int].len() + 1int) == old(
                self,
            ).paths@[node_id as int].push(sym),
        ensures
            final(self).inv(Some(target@)),
            r < final(self).nodes@.len(),
            final(self).paths@[r as int] == old(self).paths@[node_id as int].push(sym),
            final(self).values == old(self).values,
            final(self).owners == old(self).owners,
            final(self).entries == old(self).entries,
            final(self).key_nodes == old(self).key_nodes,
    {
        assert(self.node_ok(node_id as int, Some(target@)));
        match self.nodes[node_id].find(&sym) {
            Some(child_id) => {
                proof {
                    let j = choose|j: int|
                        0 <= j < self.nodes@[node_id as int].children@.len()
                            && #[trigger] self.nodes@[node_id as int].children@[j] == (sym, child_id);
                    assert(self.child_ok(node_id as int, j));
                }
                child_id
            },
            None => {
                let ghost path = self.paths@[node_id as int].push(sym);
                let new_id = self.create_new_node();
                self.paths = Ghost(self.paths@.push(path));
                self.parents = Ghost(self.parents@.push(node_id as int));
                self.extends = Ghost(self.extends@.push(target@));
                self.nodes[node_id].insert(&sym, new_id);
                proof {
                    let n = node_id as int;
                    let new = new_id as int;
                    let tgt = target@;
                    let before = old(self).nodes@[n].children@;
                    let after = self.nodes@[n].children@;
                    let pos = choose|pos: int| 0 <= pos <= before.len() && after == before.insert(pos, (sym, new_id));
                    assert forall|x: T| old(self).nodes@[n].has_symbol(x) implies self.nodes@[n].has_symbol(x) by {
                        let j = choose|j: int| 0 <= j < before.len() && #[trigger] before[j].0 == x;
                        if j < pos {
                            assert(after[j] == before[j]);
                        } else {
                            assert(after[j + 1] == before[j]);
                        }
                    }
                    assert(after[pos].0 == sym);
                    assert(self.nodes@[n].has_symbol(sym));
                    assert forall|m: int| 0 <= m < new implies old(self).paths@[m] != path by {
                        old(self).lemma_missing_child(Some(tgt), n, sym, m);
                        assert(path.subrange(0, path.len() as int) =~= path);
                    }
                    assert(path.drop_last() =~= old(self).paths@[n]);
                    assert forall|i: int| 0 <= i < self.nodes@.len() implies #[trigger] self.node_ok(i, Some(tgt)) by {
                        if i != new {
                            assert(old(self).node_ok(i, Some(tgt)));
                            if i > 0 {
                                let p = self.parents@[i];
                                if p != n {
                                    assert(self.nodes@[p] == old(self).nodes@[p]);
                                }
                            }
                            if i == n {
                                assert forall|j: int| 0 <= j < after.len() implies #[trigger] self.child_ok(i, j) by {
                                    if j < pos {
                                        assert(old(self).child_ok(i, j));
                                        assert(after[j] == before[j]);
                                    } else if j > pos {
                                        assert(old(self).child_ok(i, j - 1));
                                        assert(after[j] == before[j - 1]);
                                    }
                                }
                            } else {
                                assert(self.nodes@[i] == old(self).nodes@[i]);
                                assert forall|j: int| 0 <= j < self.nodes@[i].children@.len() implies #[trigger] self.child_ok(i, j) by {
                                    assert(old(self).child_ok(i, j));
                                }
                            }
                        }
                    }
                    assert forall|k: Seq<T>| #[trigger] self.key_nodes@.contains_key(k) implies self.key_ok(k) by {
                        assert(old(self).key_ok(k));
                        let m = self.key_nodes@[k];
                        if m != n {
                            assert(self.nodes@[m] == old(self).nodes@[m]);
                        }
                    }
                }
                new_id
            },
        }
    }
    /// Stores `value` under `key`. The path of `key` is walked from the root
    /// and missing children are created on the way. A key that already has a
    /// value gets the new one in the same slot; otherwise a slot is appended.
    pub fn insert(&mut self, key: &[T], value: U)
        requires
            old(self).wf(),
        ensures
            final(self).wf(),
            final(self)@ == with_entry(old(self)@, key@, value),
            final(self).slots() == old(self).slots() + if holds_key(old(self)@, key@) {
                0int
            } else {
                1int
            },
    {
        let ghost target = key@;
        proof {
            assert forall|i: int| 0 <= i < self.nodes@.len() implies #[trigger] self.node_ok(i, Some(target)) by {
                assert(self.node_ok(i, None));
            }
        }
        let mut node_id: usize = 0;
        let mut i: usize = 0;
        while i < key.len()
            invariant
                self.inv(Some(target)),
                target == key@,
                i <= key@.len(),
                node_id < self.nodes@.len(),
                self.paths@[node_id as int] == key@.subrange(0, i as int),
                self.values == old(self).values,
                self.owners == old(self).owners,
                self.entries == old(self).entries,
                self.key_nodes == old(self).key_nodes,
            decreases key@.len() - i,
        {
            proof {
                assert(key@.subrange(0, i + 1) =~= key@.subrange(0, i as int).push(key@[i as int]));
            }
            node_id = self.insert_child(node_id, key[i], Ghost(target));
            i = i + 1;
        }
        proof {
            assert(key@.subrange(0, i as int) =~= key@);
            assert(self.node_ok(node_id as int, Some(target)));
            if old(self)@.contains_key(key@) {
                assert(self.key_ok(key@));
            }
        }
        let ghost mid = *self;
        match self.nodes[node_id].get_value() {
            Some(value_id) => {
                self.values.set(value_id, value);
                self.entries = Ghost(self.entries@.insert(key@, value));
                proof {
                    assert(self.entries@.dom() =~= mid.entries@.dom());
                    assert forall|i: int| 0 <= i < self.nodes@.len() implies #[trigger] self.node_ok(i, None) by {
                        assert(mid.node_ok(i, Some(target)));
                        assert forall|j: int| 0 <= j < self.nodes@[i].children@.len() implies #[trigger] self.child_ok(i, j) by {
                            assert(mid.child_ok(i, j));
                        }
                    }
                    assert forall|k: Seq<T>| #[trigger] self.key_nodes@.contains_key(k) implies self.key_ok(k) by {
                        assert(mid.key_ok(k));
                    }
                }
            },
            None => {
                let value_id = self.values.len();
                self.values.push(value);
                self.nodes[node_id].set_value(value_id);
                self.owners = Ghost(self.owners@.push(node_id as int));
                self.entries = Ghost(self.entries@.insert(key@, value));
                self.key_nodes = Ghost(self.key_nodes@.insert(key@, node_id as int));
                proof {
                    let n = node_id as int;
                    assert(self.entries@.dom() =~= self.key_nodes@.dom());
                    assert forall|i: int| 0 <= i < self.nodes@.len() implies #[trigger] self.node_ok(i, None) by {
                        assert(mid.node_ok(i, Some(target)));
                        if i > 0 {
                            let p = self.parents@[i];
                            assert(self.nodes@[p].children == mid.nodes@[p].children);
                        }
                        assert(self.nodes@[i].children == mid.nodes@[i].children);
                        assert forall|j: int| 0 <= j < self.nodes@[i].children@.len() implies #[trigger] self.child_ok(i, j) by {
                            assert(mid.child_ok(i, j));
                        }
                    }
                    assert forall|k: Seq<T>| #[trigger] self.key_nodes@.contains_key(k) implies self.key_ok(k) by {
                        if k != key@ {
                            assert(mid.key_ok(k));
                        }
                    }
                }
            },
        }
    }
}

} // verus!
