use vstd::prelude::*;

use crate::key::BPKey;
use crate::node::lemmas::{
    lemma_ents_at_concat, lemma_ids_of_concat, lemma_ids_of_single, lemma_inv_sorted,
};
use crate::node::{
    BPIndexNode, BPLeafNode, BPNode, chain_ok, ents_map, ents_sorted, found_at, ids_of,
};

verus! {

/// A B+ tree of fanout `FANOUT`: index nodes own their children, and the leaves
/// live in an arena owned by the tree, linked in key order by their `prev` and
/// `next` slots.
#[derive(Debug)]
pub struct BPTree<const FANOUT: usize, K, V> {
    root: BPNode<FANOUT, K>,
    leaves: Vec<BPLeafNode<FANOUT, K, V>>,
}

/// With ascending keys, the map holds at the key of entry `j` the value of entry `j`.
pub proof fn lemma_map_at<K: BPKey, V>(s: Seq<(K, V)>, j: int)
    requires
        ents_sorted(s),
        0 <= j < s.len(),
    ensures
        ents_map(s).contains_key(s[j].0),
        ents_map(s)[s[j].0] == s[j].1,
{
    assert(found_at(s, s[j].0, j));
    let i = choose|i: int| 0 <= i < s.len() && s[i].0 == s[j].0;
    if i != j {
        if i < j {
            assert(s[i].0.rank() < s[j].0.rank());
        } else {
            assert(s[j].0.rank() < s[i].0.rank());
        }
    }
}

/// The map holds a key exactly where some entry has it.
pub proof fn lemma_map_contains<K, V>(s: Seq<(K, V)>, k: K)
    ensures
        ents_map(s).contains_key(k) == exists|j: int| found_at(s, k, j),
{
    if ents_map(s).contains_key(k) {
        let j = choose|j: int| 0 <= j < s.len() && s[j].0 == k;
        assert(found_at(s, k, j));
    }
    if exists|j: int| found_at(s, k, j) {
        let j = choose|j: int| found_at(s, k, j);
        assert(0 <= j < s.len() && s[j].0 == k);
    }
}

/// Adding an entry for an absent key, in its place, adds it to the map.
pub proof fn lemma_map_insert<K: BPKey, V>(s: Seq<(K, V)>, p: int, k: K, v: V)
    requires
        0 <= p <= s.len(),
        ents_sorted(s.insert(p, (k, v))),
        !exists|j: int| found_at(s, k, j),
    ensures
        ents_map(s.insert(p, (k, v))) == ents_map(s).insert(k, v),
{
    let t = s.insert(p, (k, v));
    assert(ents_sorted(s)) by {
        assert forall|a: int, b: int| 0 <= a < b < s.len() implies (#[trigger] s[a]).0.rank() < (
        #[trigger] s[b]).0.rank() by {
            let a2 = if a < p { a } else { a + 1 };
            let b2 = if b < p { b } else { b + 1 };
            assert(t[a2] == s[a] && t[b2] == s[b]);
        }
    }
    assert forall|x: K| #[trigger] ents_map(t).contains_key(x) == ents_map(s).insert(k, v).contains_key(x) by {
        if ents_map(t).contains_key(x) {
            let j = choose|j: int| 0 <= j < t.len() && t[j].0 == x;
            if j < p {
                assert(s[j] == t[j]);
            } else if j > p {
                assert(s[j - 1] == t[j]);
            }
        }
        if ents_map(s).contains_key(x) {
            let j = choose|j: int| 0 <= j < s.len() && s[j].0 == x;
            if j < p {
                assert(t[j] == s[j]);
            } else {
                assert(t[j + 1] == s[j]);
            }
        }
        if x == k {
            assert(t[p].0 == k);
        }
    }
    assert forall|x: K| #[trigger] ents_map(t).contains_key(x) implies ents_map(t)[x] == ents_map(s).insert(k, v)[x] by {
        let j = choose|j: int| 0 <= j < t.len() && t[j].0 == x;
        lemma_map_at(t, j);
        if j != p && x == k {
            assert(t[p].0 == k);
            if j < p {
                assert(t[j].0.rank() < t[p].0.rank());
            } else {
                assert(t[p].0.rank() < t[j].0.rank());
            }
        }
        if j < p {
            assert(s[j] == t[j]);
            lemma_map_at(s, j);
        } else if j > p {
            assert(s[j - 1] == t[j]);
            lemma_map_at(s, j - 1);
        }
    }
    assert(ents_map(t) =~= ents_map(s).insert(k, v));
}

/// Two ascending key sequences with the same elements are equal.
pub proof fn lemma_sorted_unique<K: BPKey>(a: Seq<K>, b: Seq<K>)
    requires
        crate::key::sorted(a),
        crate::key::sorted(b),
        forall|x: K| a.contains(x) <==> b.contains(x),
    ensures
        a == b,
    decreases a.len(),
{
    if a.len() == 0 {
        if b.len() > 0 {
            assert(b.contains(b[0]));
        }
        assert(a =~= b);
    } else {
        assert(a.contains(a[0]));
        let i = choose|i: int| 0 <= i < b.len() && b[i] == a[0];
        assert(b.contains(b[0]));
        let j = choose|j: int| 0 <= j < a.len() && a[j] == b[0];
        if i > 0 {
            assert(b[0].rank() < b[i].rank());
            if j > 0 {
                assert(a[0].rank() < a[j].rank());
            }
        }
        assert(i == 0);
        let a2 = a.skip(1);
        let b2 = b.skip(1);
        crate::key::lemma_sorted_subrange(a, 1, a.len() as int);
        crate::key::lemma_sorted_subrange(b, 1, b.len() as int);
        assert(a2 =~= a.subrange(1, a.len() as int));
        assert(b2 =~= b.subrange(1, b.len() as int));
        assert forall|x: K| a2.contains(x) <==> b2.contains(x) by {
            if a2.contains(x) {
                let k = choose|k: int| 0 <= k < a2.len() && a2[k] == x;
                assert(a[k + 1] == x);
                assert(a[0].rank() < a[k + 1].rank());
                assert(b.contains(x));
                let m = choose|m: int| 0 <= m < b.len() && b[m] == x;
                assert(m != 0);
                assert(b2[m - 1] == x);
            }
            if b2.contains(x) {
                let k = choose|k: int| 0 <= k < b2.len() && b2[k] == x;
                assert(b[k + 1] == x);
                assert(b[0].rank() < b[k + 1].rank());
                assert(a.contains(x));
                let m = choose|m: int| 0 <= m < a.len() && a[m] == x;
                assert(m != 0);
                assert(a2[m - 1] == x);
            }
        }
        lemma_sorted_unique(a2, b2);
        assert(a =~= seq![a[0]] + a2);
        assert(b =~= seq![b[0]] + b2);
    }
}

/// Dropping the entry of a key drops the key from the map.
pub proof fn lemma_map_remove<K: BPKey, V>(s: Seq<(K, V)>, q: int)
    requires
        ents_sorted(s),
        0 <= q < s.len(),
    ensures
        ents_map(s.remove(q)) == ents_map(s).remove(s[q].0),
        ents_sorted(s.remove(q)),
{
    let t = s.remove(q);
    let k = s[q].0;
    crate::node::reshape::lemma_ents_sorted_remove(s, q);
    assert forall|x: K| #[trigger] ents_map(t).contains_key(x) == ents_map(s).remove(k).contains_key(x) by {
        if ents_map(t).contains_key(x) {
            let j = choose|j: int| 0 <= j < t.len() && t[j].0 == x;
            let j2 = if j < q { j } else { j + 1 };
            assert(s[j2] == t[j]);
            if j2 < q {
                assert(s[j2].0.rank() < s[q].0.rank());
            } else {
                assert(s[q].0.rank() < s[j2].0.rank());
            }
        }
        if ents_map(s).remove(k).contains_key(x) {
            let j = choose|j: int| 0 <= j < s.len() && s[j].0 == x;
            assert(j != q);
            if j < q {
                assert(t[j] == s[j]);
            } else {
                assert(t[j - 1] == s[j]);
            }
        }
    }
    assert forall|x: K| #[trigger] ents_map(t).contains_key(x) implies ents_map(t)[x] == ents_map(s).remove(k)[x] by {
        let j = choose|j: int| 0 <= j < t.len() && t[j].0 == x;
        lemma_map_at(t, j);
        let j2 = if j < q { j } else { j + 1 };
        assert(s[j2] == t[j]);
        lemma_map_at(s, j2);
    }
    assert(ents_map(t) =~= ents_map(s).remove(k));
}

impl<const FANOUT: usize, K: BPKey, V> BPTree<FANOUT, K, V> {
    /// The tree's invariant: a fanout of at least 3; the root well formed, a leaf
    /// below `FANOUT` keys or an index node with between 2 and `FANOUT` children;
    /// every leaf named once; and the leaves, in key order, forming the chain.
    pub closed spec fn wf(self) -> bool {
        &&& 3 <= FANOUT < usize::MAX
        &&& self.root.inv(self.leaves@)
        &&& match self.root {
            BPNode::Leaf(id) => self.leaves@[id as int].keys@.len() < FANOUT,
            BPNode::Index(ix) => 2 <= ix.children@.len() <= FANOUT,
        }
        &&& self.root.leaf_ids().no_duplicates()
        &&& chain_ok(self.root.leaf_ids(), self.leaves@)
    }

    /// The arena slots of the leaves, from the leftmost to the rightmost.
    pub closed spec fn chain(self) -> Seq<usize> {
        self.root.leaf_ids()
    }

    /// The leaf in arena slot `id`.
    pub closed spec fn leaf(self, id: usize) -> BPLeafNode<FANOUT, K, V> {
        self.leaves@[id as int]
    }

    /// Walking `next` from the leftmost leaf visits the leaves of `chain()` in order
    /// and stops after the last; `prev` walks it back.
    pub open spec fn chain_linked(self) -> bool {
        let c = self.chain();
        &&& c.len() > 0
        &&& self.leaf(c[0]).prev is None
        &&& self.leaf(c[c.len() - 1]).next is None
        &&& forall|j: int|
            0 <= j < c.len() - 1 ==> self.leaf(#[trigger] c[j]).next == Some(c[j + 1])
                && self.leaf(c[j + 1]).prev == Some(c[j])
    }

    /// For every leaf `l` of the chain whose `next` is `r`, `r`'s `prev` is `l`.
    pub open spec fn chain_reciprocal(self) -> bool {
        forall|l: usize, r: usize|
            #[trigger] self.chain().contains(l) && self.leaf(l).next == Some(r) ==> #[trigger] self.leaf(
                r,
            ).prev == Some(l)
    }

    /// All leaves lie at the same depth.
    pub closed spec fn leaves_at_equal_depth(self) -> bool {
        self.root.uniform_depth()
    }

    /// Every node but the root keeps its occupancy bounds; a root index node has
    /// between 2 and `FANOUT` children, a root leaf fewer than `FANOUT` keys.
    pub closed spec fn fanout_bounded(self) -> bool {
        &&& self.root.fanout_within(self.leaves@)
        &&& match self.root {
            BPNode::Leaf(id) => self.leaves@[id as int].keys@.len() < FANOUT,
            BPNode::Index(ix) => 2 <= ix.children@.len() <= FANOUT,
        }
    }

    /// Every separator of every index node is the least key of the subtree right of
    /// it.
    pub closed spec fn separators_match(self) -> bool {
        self.root.separators_are_minima(self.leaves@)
    }

    /// The keys along the leaf chain ascend strictly.
    pub open spec fn keys_ascending(self) -> bool {
        forall|i: int, j: int|
            0 <= i < j < self.key_seq().len() ==> (#[trigger] self.key_seq()[i]).rank() < (
            #[trigger] self.key_seq()[j]).rank()
    }

    /// The structural laws of a well formed tree: the leaf chain is linked both
    /// ways and its keys ascend, leaves lie at one depth, nodes keep their occupancy
    /// bounds, and separators are the minima to their right.
    pub proof fn lemma_wf_laws(self)
        requires
            self.wf(),
        ensures
            self.keys_ascending(),
            self.chain_linked(),
            self.chain_reciprocal(),
            self.leaves_at_equal_depth(),
            self.fanout_bounded(),
            self.separators_match(),
    {
        self.root.lemma_inv_laws(self.leaves@);
        lemma_inv_sorted(self.root, self.leaves@);
        let c = self.chain();
        crate::node::lemmas::lemma_nonempty_ids(self.root, self.leaves@);
        assert(crate::node::link_ok(c, self.leaves@, 0));
        assert(crate::node::link_ok(c, self.leaves@, c.len() - 1));
        assert forall|j: int| 0 <= j < c.len() - 1 implies self.leaf(#[trigger] c[j]).next == Some(c[j + 1])
            && self.leaf(c[j + 1]).prev == Some(c[j]) by {
            assert(crate::node::link_ok(c, self.leaves@, j));
            assert(crate::node::link_ok(c, self.leaves@, j + 1));
        }
        assert forall|l: usize, r: usize|
            #[trigger] self.chain().contains(l) && self.leaf(l).next == Some(r) implies #[trigger] self.leaf(
            r,
        ).prev == Some(l) by {
            let j = choose|j: int| 0 <= j < c.len() && c[j] == l;
            assert(crate::node::link_ok(c, self.leaves@, j));
            if j + 1 < c.len() {
                assert(crate::node::link_ok(c, self.leaves@, j + 1));
            }
        }
        let e = self.entries();
        assert forall|i: int, j: int| 0 <= i < j < self.key_seq().len() implies (
        #[trigger] self.key_seq()[i]).rank() < (#[trigger] self.key_seq()[j]).rank() by {
            assert(self.key_seq()[i] == e[i].0);
            assert(self.key_seq()[j] == e[j].0);
        }
    }

    /// The entries of the tree, in the order of the leaf chain.
    pub closed spec fn entries(self) -> Seq<(K, V)> {
        self.root.ents_of(self.leaves@)
    }

    /// The keys of the tree, in the order of the leaf chain.
    pub open spec fn key_seq(self) -> Seq<K> {
        self.entries().map_values(|e: (K, V)| e.0)
    }

    /// The tree as a map from keys to values.
    pub open spec fn view(self) -> Map<K, V> {
        ents_map(self.entries())
    }

    /// The root node.
    pub closed spec fn root_node(self) -> BPNode<FANOUT, K> {
        self.root
    }

    /// The leaf arena.
    pub closed spec fn arena(self) -> Seq<BPLeafNode<FANOUT, K, V>> {
        self.leaves@
    }

    /// Number of slots of the leaf arena, used or freed.
    pub closed spec fn arena_len(self) -> nat {
        self.leaves@.len()
    }

    /// An empty tree: its root is an empty leaf.
    pub fn new() -> (r: Self)
        requires
            3 <= FANOUT < usize::MAX,
        ensures
            r.wf(),
            r@ == Map::<K, V>::empty(),
            r.entries() == Seq::<(K, V)>::empty(),
            r.arena_len() == 1,
    {
        let mut leaves: Vec<BPLeafNode<FANOUT, K, V>> = Vec::new();
        leaves.push(BPLeafNode::new());
        let r = BPTree { root: BPNode::Leaf(0), leaves };
        proof {
            crate::node::lemmas::lemma_ents_at_single(r.leaves@, 0);
            assert(r.leaves@[0].entries() =~= Seq::<(K, V)>::empty());
            assert(r.root.leaf_ids() == seq![0usize]);
            assert(crate::node::link_ok(r.root.leaf_ids(), r.leaves@, 0));
            assert(ents_map(r.entries()) =~= Map::<K, V>::empty());
            assert(crate::key::sorted(r.leaves@[0].keys@));
        }
        r
    }

    /// A tree with the given root over the given leaf arena.
    pub fn new_from(root: BPNode<FANOUT, K>, leaves: Vec<BPLeafNode<FANOUT, K, V>>) -> (r: Self)
        ensures
            r.root_node() == root,
            r.arena() == leaves@,
    {
        BPTree { root, leaves }
    }

    /// The value stored for `key`, cloned; none where the key is absent.
    pub fn search(&self, key: &K) -> (r: Option<V>)
        where
            V: Clone,
        requires
            self.wf(),
        ensures
            r is Some <==> self@.contains_key(*key),
            r is Some ==> cloned(self@[*key], r->0),
    {
        let r = self.root.search_recur(&self.leaves, key);
        proof {
            lemma_map_contains(self.entries(), *key);
            lemma_inv_sorted(self.root, self.leaves@);
            if r is Some {
                let j = choose|j: int|
                    found_at(self.entries(), *key, j) && cloned(self.entries()[j].1, r->0);
                lemma_map_at(self.entries(), j);
            }
        }
        r
    }

    /// Whether `key` is stored in the tree.
    pub fn contains(&self, key: &K) -> (r: bool)
        requires
            self.wf(),
        ensures
            r == self@.contains_key(*key),
    {
        let r = self.root.locate(&self.leaves, key).is_some();
        proof {
            lemma_map_contains(self.entries(), *key);
        }
        r
    }

    /// Inserts `key` with `value`. Where the key is present the tree is left as it
    /// is: the first value stored for a key stays.
    pub fn insert(&mut self, key: K, value: V)
        requires
            old(self).wf(),
            old(self).arena_len() + 1 < usize::MAX,
        ensures
            final(self).wf(),
            old(self)@.contains_key(key) ==> *final(self) == *old(self),
            !old(self)@.contains_key(key) ==> final(self)@ == old(self)@.insert(key, value),
            final(self).arena_len() <= old(self).arena_len() + 1,
            final(self).depth() == old(self).depth() || final(self).depth() == old(self).depth() + 1,
            final(self).depth() == old(self).depth() + 1 ==> final(self).root_node() is Index
                && final(self).root_node()->Index_0.children@.len() == 2,
            final(self).keys_ascending(),
            final(self).chain_linked(),
            final(self).chain_reciprocal(),
            final(self).leaves_at_equal_depth(),
            final(self).fanout_bounded(),
            final(self).separators_match(),
    {
        if self.contains(&key) {
            proof {
                self.lemma_wf_laws();
            }
            return;
        }
        let ghost l1 = self.leaves@;
        let ghost r1 = self.root;
        proof {
            assert(Seq::<usize>::empty() + r1.leaf_ids() + Seq::<usize>::empty() =~= r1.leaf_ids());
            lemma_map_contains(r1.ents_of(l1), key);
            assert(!exists|j: int| found_at(r1.ents_of(l1), key, j));
        }
        self.root.insert_recur(&mut self.leaves, key, value, Ghost(Seq::empty()), Ghost(Seq::empty()));
        let ghost l2 = self.leaves@;
        let ghost r2 = self.root;
        proof {
            assert(Seq::<usize>::empty() + r2.leaf_ids() + Seq::<usize>::empty() =~= r2.leaf_ids());
            let p = choose|p: int|
                0 <= p <= r1.ents_of(l1).len() && r2.ents_of(l2) == r1.ents_of(l1).insert(p, (key, value));
            lemma_inv_sorted(r2, l2);
            lemma_map_insert(r1.ents_of(l1), p, key, value);
        }
        if self.root.is_full(&self.leaves) {
            let mut left = BPNode::Leaf(0);
            std::mem::swap(&mut self.root, &mut left);
            let (split_key, right) = left.split_node(&mut self.leaves, Ghost(Seq::empty()), Ghost(Seq::empty()));
            let mut ix = BPIndexNode::new();
            ix.push_key(split_key);
            ix.push_child(left);
            ix.push_child(right);
            self.root = BPNode::Index(ix);
            proof {
                let l3 = self.leaves@;
                let n = self.root;
                let cs = seq![left, right];
                assert(ix.children@ =~= cs);
                assert(cs =~= seq![left] + seq![right]);
                lemma_ids_of_concat(seq![left], seq![right]);
                lemma_ids_of_single(left);
                lemma_ids_of_single(right);
                lemma_ents_at_concat(l3, left.leaf_ids(), right.leaf_ids());
                assert(n.ents_of(l3) == r2.ents_of(l2));
                lemma_inv_sorted(r2, l2);
                assert(cs[1] == right);
                assert(n.inv(l3));
                assert(Seq::<usize>::empty() + left.leaf_ids() + right.leaf_ids() + Seq::<usize>::empty()
                    =~= n.leaf_ids());
            }
        }
        proof {
            self.lemma_wf_laws();
        }
    }

    /// Removes `key` and its value. Where the key is absent the tree is left as it
    /// is. A root index node left with one child gives way to that child.
    pub fn remove(&mut self, key: &K)
        requires
            old(self).wf(),
        ensures
            final(self).wf(),
            !old(self)@.contains_key(*key) ==> *final(self) == *old(self),
            old(self)@.contains_key(*key) ==> final(self)@ == old(self)@.remove(*key),
            final(self).arena_len() == old(self).arena_len(),
            final(self).depth() == old(self).depth() || final(self).depth() + 1 == old(self).depth(),
            final(self).keys_ascending(),
            final(self).chain_linked(),
            final(self).chain_reciprocal(),
            final(self).leaves_at_equal_depth(),
            final(self).fanout_bounded(),
            final(self).separators_match(),
    {
        if !self.contains(key) {
            proof {
                self.lemma_wf_laws();
            }
            return;
        }
        let ghost l1 = self.leaves@;
        let ghost r1 = self.root;
        proof {
            assert(Seq::<usize>::empty() + r1.leaf_ids() + Seq::<usize>::empty() =~= r1.leaf_ids());
            lemma_map_contains(r1.ents_of(l1), *key);
        }
        self.root.remove_recur(&mut self.leaves, key, Ghost(Seq::empty()), Ghost(Seq::empty()));
        let ghost l2 = self.leaves@;
        let ghost r2 = self.root;
        proof {
            assert(Seq::<usize>::empty() + r2.leaf_ids() + Seq::<usize>::empty() =~= r2.leaf_ids());
            let q = choose|q: int| found_at(r1.ents_of(l1), *key, q) && r2.ents_of(l2) == r1.ents_of(l1).remove(q);
            lemma_inv_sorted(r1, l1);
            lemma_map_remove(r1.ents_of(l1), q);
        }
        let collapse = match &self.root {
            BPNode::Index(ix) => ix.keys.len() == 0,
            BPNode::Leaf(_) => false,
        };
        if collapse {
            let mut old_root = BPNode::Leaf(0);
            std::mem::swap(&mut self.root, &mut old_root);
            match old_root {
                BPNode::Index(ix) => {
                    let mut ix = ix;
                    let child = ix.children.remove(0);
                    self.root = child;
                    proof {
                        let c = self.root;
                        assert(r2->Index_0.children@ =~= seq![c]);
                        lemma_ids_of_single(c);
                        assert(r2.leaf_ids() == c.leaf_ids());
                        assert(c.inv(l2) && c.size_ok(l2));
                    }
                },
                BPNode::Leaf(id) => {
                    self.root = BPNode::Leaf(id);
                },
            }
        }
        proof {
            self.lemma_wf_laws();
        }
    }

    /// The keys along the leaf chain ascend.
    pub proof fn lemma_key_seq_sorted(self)
        requires
            self.wf(),
        ensures
            crate::key::sorted(self.key_seq()),
            self.keys_ascending(),
    {
        lemma_inv_sorted(self.root, self.leaves@);
        let e = self.entries();
        assert forall|i: int, j: int| 0 <= i < j < self.key_seq().len() implies (
        #[trigger] self.key_seq()[i]).rank() < (#[trigger] self.key_seq()[j]).rank() by {
            assert(self.key_seq()[i] == e[i].0);
            assert(self.key_seq()[j] == e[j].0);
        }
    }

    /// The keys of the tree in ascending order, read by walking the leaf chain from
    /// the leftmost leaf along the `next` links.
    pub fn keys_in_order(&self) -> (r: Vec<K>)
        requires
            self.wf(),
        ensures
            r@ == self.key_seq(),
    {
        let ghost c = self.root.leaf_ids();
        let ghost l = self.leaves@;
        proof {
            crate::node::lemmas::lemma_nonempty_ids(self.root, l);
        }
        let mut node = &self.root;
        while node.is_index()
            invariant
                node.inv(l),
                node.leaf_ids().len() > 0,
                node.leaf_ids()[0] == c[0],
            decreases node.height(),
        {
            let ix = node.as_index();
            proof {
                crate::node::lemmas::lemma_ids_of_split(ix.children@, 0);
                crate::node::lemmas::lemma_nonempty_ids(ix.children@[0], l);
                assert(ix.children@.take(0) =~= Seq::<BPNode<FANOUT, K>>::empty());
                assert(ids_of(ix.children@.take(0)) == Seq::<usize>::empty());
                assert(node.leaf_ids()[0] == ix.children@[0].leaf_ids()[0]);
            }
            node = &ix.children[0];
        }
        let first = node.as_leaf();
        proof {
            assert(node.leaf_ids() == seq![first]);
        }
        let mut out: Vec<K> = Vec::new();
        let mut cur: Option<usize> = Some(first);
        let ghost mut i: int = 0;
        proof {
            assert(c.take(0) =~= Seq::<usize>::empty());
            assert(out@ =~= crate::node::ents_at(l, c.take(0)).map_values(|e: (K, V)| e.0));
        }
        while cur.is_some()
            invariant
                crate::node::chain_ok(c, l),
                c.len() > 0,
                0 <= i <= c.len(),
                i < c.len() ==> cur == Some(c[i]),
                i == c.len() ==> cur is None,
                out@ == crate::node::ents_at(l, c.take(i)).map_values(|e: (K, V)| e.0),
                l == self.leaves@,
            decreases c.len() - i,
        {
            let id = cur.unwrap();
            proof {
                assert(crate::node::link_ok(c, l, i));
            }
            let leaf = &self.leaves[id];
            let ghost before = out@;
            let mut k: usize = 0;
            while k < leaf.keys.len()
                invariant
                    0 <= k <= leaf.keys@.len(),
                    out@ == before + leaf.keys@.take(k as int),
                decreases leaf.keys@.len() - k,
            {
                out.push(leaf.keys[k]);
                k = k + 1;
                proof {
                    assert(leaf.keys@.take(k as int) =~= leaf.keys@.take(k - 1).push(leaf.keys@[k - 1]));
                }
            }
            cur = leaf.next;
            proof {
                assert(c.take(i + 1).drop_last() =~= c.take(i));
                assert(c.take(i + 1).last() == id);
                let prev_e = crate::node::ents_at(l, c.take(i));
                assert(crate::node::ents_at(l, c.take(i + 1)) == prev_e + l[id as int].entries());
                assert(leaf.keys@.take(leaf.keys@.len() as int) =~= leaf.keys@);
                assert((prev_e + l[id as int].entries()).map_values(|e: (K, V)| e.0) =~= prev_e.map_values(
                    |e: (K, V)| e.0,
                ) + leaf.keys@);
                i = i + 1;
            }
        }
        proof {
            assert(c.take(c.len() as int) =~= c);
        }
        out
    }

    /// The depth of the leaves: 0 where the root is a leaf.
    pub closed spec fn depth(self) -> nat {
        self.root.height()
    }

    /// The depth of the leaves: the number of index nodes on the path from the root
    /// to any leaf.
    pub fn height(&self) -> (r: usize)
        requires
            self.wf(),
        ensures
            r == self.depth(),
    {
        let slots = self.leaves.len();
        let ghost l = self.leaves@;
        proof {
            crate::node::lemmas::lemma_height_below_leaves(self.root, l);
            crate::node::lemmas::lemma_ids_in_range(self.root, l);
            crate::node::lemmas::lemma_distinct_below(self.root.leaf_ids(), slots as int);
        }
        let mut node = &self.root;
        let mut h: usize = 0;
        while node.is_index()
            invariant
                node.inv(l),
                h + node.height() == self.root.height(),
                self.root.height() < slots,
            decreases node.height(),
        {
            let ix = node.as_index();
            proof {
                assert(ix.children@[0].height() + 1 == node.height());
            }
            node = &ix.children[0];
            h = h + 1;
        }
        h
    }

    /// The leaves met walking the chain from the leftmost leaf along `next`: for each,
    /// its arena slot and its `prev` and `next` links.
    pub fn chain_links(&self) -> (r: Vec<(usize, Option<usize>, Option<usize>)>)
        requires
            self.wf(),
        ensures
            r@.len() == self.chain().len(),
            forall|j: int|
                0 <= j < r@.len() ==> #[trigger] r@[j] == (
                    self.chain()[j],
                    self.leaf(self.chain()[j]).prev,
                    self.leaf(self.chain()[j]).next,
                ),
    {
        let ghost c = self.root.leaf_ids();
        let ghost l = self.leaves@;
        proof {
            crate::node::lemmas::lemma_nonempty_ids(self.root, l);
        }
        let mut node = &self.root;
        while node.is_index()
            invariant
                node.inv(l),
                node.leaf_ids().len() > 0,
                node.leaf_ids()[0] == c[0],
            decreases node.height(),
        {
            let ix = node.as_index();
            proof {
                crate::node::lemmas::lemma_ids_of_split(ix.children@, 0);
                crate::node::lemmas::lemma_nonempty_ids(ix.children@[0], l);
                assert(ix.children@.take(0) =~= Seq::<BPNode<FANOUT, K>>::empty());
                assert(ids_of(ix.children@.take(0)) == Seq::<usize>::empty());
                assert(node.leaf_ids()[0] == ix.children@[0].leaf_ids()[0]);
            }
            node = &ix.children[0];
        }
        let first = node.as_leaf();
        proof {
            assert(node.leaf_ids() == seq![first]);
        }
        let mut out: Vec<(usize, Option<usize>, Option<usize>)> = Vec::new();
        let mut cur: Option<usize> = Some(first);
        let ghost mut i: int = 0;
        while cur.is_some()
            invariant
                crate::node::chain_ok(c, l),
                c.len() > 0,
                0 <= i <= c.len(),
                i < c.len() ==> cur == Some(c[i]),
                i == c.len() ==> cur is None,
                out@.len() == i,
                forall|j: int|
                    0 <= j < i ==> #[trigger] out@[j] == (c[j], l[c[j] as int].prev, l[c[j] as int].next),
                l == self.leaves@,
                c == self.chain(),
            decreases c.len() - i,
        {
            let id = cur.unwrap();
            proof {
                assert(crate::node::link_ok(c, l, i));
            }
            let leaf = &self.leaves[id];
            out.push((id, leaf.prev, leaf.next));
            cur = leaf.next;
            proof {
                i = i + 1;
            }
        }
        out
    }

    /// The keys along the leaf chain are exactly the keys of the map.
    pub proof fn lemma_key_seq_domain(self)
        ensures
            forall|k: K| #[trigger] self@.contains_key(k) <==> self.key_seq().contains(k),
    {
        let e = self.entries();
        assert forall|k: K| #[trigger] self@.contains_key(k) <==> self.key_seq().contains(k) by {
            lemma_map_contains(e, k);
            if self.key_seq().contains(k) {
                let j = choose|j: int| 0 <= j < self.key_seq().len() && self.key_seq()[j] == k;
                assert(found_at(e, k, j));
            }
            if exists|j: int| found_at(e, k, j) {
                let j = choose|j: int| found_at(e, k, j);
                assert(self.key_seq()[j] == k);
            }
        }
    }

    /// After `insert(k, v)` a search for `k` finds `v`, unless `k` was present, in
    /// which case it finds the value stored first.
    pub proof fn lemma_insert_then_search(t1: Self, t2: Self, k: K, v: V)
        requires
            t1.wf(),
            t1@.contains_key(k) ==> t2 == t1,
            !t1@.contains_key(k) ==> t2@ == t1@.insert(k, v),
        ensures
            t2@.contains_key(k),
            t2@[k] == (if t1@.contains_key(k) {
                t1@[k]
            } else {
                v
            }),
    {
    }

    /// After `remove(k)` a search for `k` finds nothing, and every other key keeps
    /// its value.
    pub proof fn lemma_remove_then_search(t1: Self, t2: Self, k: K)
        requires
            t1.wf(),
            !t1@.contains_key(k) ==> t2 == t1,
            t1@.contains_key(k) ==> t2@ == t1@.remove(k),
        ensures
            !t2@.contains_key(k),
            forall|k2: K|
                k2 != k && #[trigger] t1@.contains_key(k2) ==> t2@.contains_key(k2) && t2@[k2]
                    == t1@[k2],
            forall|k2: K| #[trigger] t2@.contains_key(k2) ==> t1@.contains_key(k2),
    {
    }

    /// Two trees holding the same keys list them in the same, ascending order along
    /// their leaf chains: whatever order the keys were inserted in, the keys in order
    /// are the key set sorted.
    pub proof fn lemma_same_keys_same_order(t1: Self, t2: Self)
        requires
            t1.wf(),
            t2.wf(),
            t1@.dom() == t2@.dom(),
        ensures
            t1.key_seq() == t2.key_seq(),
            t1.keys_ascending(),
    {
        t1.lemma_key_seq_sorted();
        t2.lemma_key_seq_sorted();
        t1.lemma_key_seq_domain();
        t2.lemma_key_seq_domain();
        assert forall|x: K| t1.key_seq().contains(x) <==> t2.key_seq().contains(x) by {
            assert(t1@.dom().contains(x) == t2@.dom().contains(x));
            assert(t1@.contains_key(x) == t2@.contains_key(x));
            assert(t1@.contains_key(x) <==> t1.key_seq().contains(x));
            assert(t2@.contains_key(x) <==> t2.key_seq().contains(x));
        }
        lemma_sorted_unique(t1.key_seq(), t2.key_seq());
    }
}

} // verus!
