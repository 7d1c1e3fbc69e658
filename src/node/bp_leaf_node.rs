use vstd::prelude::*;

use crate::key::{BPKey, sorted, search_result, search_sorted};
use crate::node::lemmas::{lemma_chain_merge, lemma_chain_split, same_leaf};
use crate::node::{BPNode, chain_ok, link_ok};

verus! {

/// A leaf: keys in ascending order, the values aligned with them, and the
/// positions of the neighbouring leaves in the tree's leaf arena.
///
/// `prev` and `next` are observers: they name slots of the arena and own nothing.
#[derive(Debug)]
pub struct BPLeafNode<const FANOUT: usize, K, V> {
    pub keys: Vec<K>,
    pub values: Vec<V>,
    pub prev: Option<usize>,
    pub next: Option<usize>,
}

impl<const FANOUT: usize, K: BPKey, V> BPLeafNode<FANOUT, K, V> {
    /// Keys ascending and paired one to one with values.
    pub open spec fn wf(self) -> bool {
        &&& self.keys@.len() == self.values@.len()
        &&& sorted(self.keys@)
    }

    /// The entries of this leaf, each key with its value.
    pub open spec fn entries(self) -> Seq<(K, V)> {
        Seq::new(self.keys@.len(), |i: int| (self.keys@[i], self.values@[i]))
    }

    pub fn new() -> (r: Self)
        ensures
            r.keys@ == Seq::<K>::empty(),
            r.values@ == Seq::<V>::empty(),
            r.prev is None,
            r.next is None,
    {
        BPLeafNode { keys: Vec::new(), values: Vec::new(), prev: None, next: None }
    }

    pub fn new_with(keys: Vec<K>, values: Vec<V>, prev: Option<usize>, next: Option<usize>) -> (r:
        Self)
        ensures
            r.keys == keys,
            r.values == values,
            r.prev == prev,
            r.next == next,
    {
        BPLeafNode { keys, values, prev, next }
    }

    pub fn is_full(&self) -> (r: bool)
        ensures
            r == (self.keys@.len() == FANOUT),
    {
        self.keys.len() == FANOUT
    }

    pub fn is_minimum(&self) -> (r: bool)
        ensures
            r == (self.keys@.len() == FANOUT / 2),
    {
        self.keys.len() == FANOUT / 2
    }

    pub fn is_underflow(&self) -> (r: bool)
        ensures
            r == (self.keys@.len() < FANOUT / 2),
    {
        self.keys.len() < FANOUT / 2
    }

    pub fn is_empty(&self) -> (r: bool)
        ensures
            r == (self.keys@.len() == 0),
    {
        self.keys.len() == 0
    }

    pub fn get_key(&self, index: usize) -> (r: Option<&K>)
        ensures
            index < self.keys@.len() ==> r == Some(&self.keys@[index as int]),
            index >= self.keys@.len() ==> r is None,
    {
        if index < self.keys.len() {
            Some(&self.keys[index])
        } else {
            None
        }
    }

    pub fn get_value(&self, index: usize) -> (r: Option<&V>)
        ensures
            index < self.values@.len() ==> r == Some(&self.values@[index as int]),
            index >= self.values@.len() ==> r is None,
    {
        if index < self.values.len() {
            Some(&self.values[index])
        } else {
            None
        }
    }

    pub fn search_key(&self, key: &K) -> (r: Result<usize, usize>)
        requires
            self.wf(),
        ensures
            search_result(self.keys@, *key, r),
    {
        search_sorted(&self.keys, key)
    }

    /// Removes the entry at `index`, if there is one.
    pub fn remove(&mut self, index: usize) -> (r: Option<(K, V)>)
        requires
            old(self).keys@.len() == old(self).values@.len(),
        ensures
            index < old(self).keys@.len() ==> {
                &&& r == Some((old(self).keys@[index as int], old(self).values@[index as int]))
                &&& final(self).keys@ == old(self).keys@.remove(index as int)
                &&& final(self).values@ == old(self).values@.remove(index as int)
            },
            index >= old(self).keys@.len() ==> r is None && final(self).keys@ == old(self).keys@
                && final(self).values@ == old(self).values@,
            final(self).prev == old(self).prev,
            final(self).next == old(self).next,
    {
        if index < self.keys.len() {
            let key = self.keys.remove(index);
            let value = self.values.remove(index);
            Some((key, value))
        } else {
            None
        }
    }

    /// Removes `key` and its value; false where the key is absent.
    pub fn delete(&mut self, key: &K) -> (r: bool)
        requires
            old(self).wf(),
        ensures
            r == old(self).keys@.contains(*key),
            r ==> exists|i: int|
                0 <= i < old(self).keys@.len() && old(self).keys@[i] == *key
                    && final(self).keys@ == old(self).keys@.remove(i)
                    && final(self).values@ == old(self).values@.remove(i),
            !r ==> *final(self) == *old(self),
            final(self).wf(),
            final(self).prev == old(self).prev,
            final(self).next == old(self).next,
    {
        match self.search_key(key) {
            Ok(index) => {
                let ghost old_keys = self.keys@;
                self.keys.remove(index);
                self.values.remove(index);
                assert(old_keys.contains(*key)) by {
                    assert(old_keys[index as int] == *key);
                }
                assert(sorted(self.keys@)) by {
                    assert forall|a: int, b: int| 0 <= a < b < self.keys@.len() implies (
                    #[trigger] self.keys@[a]).rank() < (#[trigger] self.keys@[b]).rank() by {
                        let a2 = if a < index { a } else { a + 1 };
                        let b2 = if b < index { b } else { b + 1 };
                        assert(self.keys@[a] == old_keys[a2] && self.keys@[b] == old_keys[b2]);
                    }
                }
                true
            },
            Err(index) => {
                assert(!self.keys@.contains(*key)) by {
                    if self.keys@.contains(*key) {
                        let j = choose|j: int| 0 <= j < self.keys@.len() && self.keys@[j] == *key;
                        assert(self.keys@[j] == *key);
                    }
                }
                false
            },
        }
    }

    /// Inserts `key` with `value` where the key is absent; false, and no change, where
    /// it is present.
    pub fn insert(&mut self, key: K, value: V) -> (r: bool)
        requires
            old(self).wf(),
        ensures
            r == !old(self).keys@.contains(key),
            r ==> exists|i: int|
                0 <= i <= old(self).keys@.len() && final(self).keys@ == old(self).keys@.insert(
                    i,
                    key,
                ) && final(self).values@ == old(self).values@.insert(i, value),
            !r ==> *final(self) == *old(self),
            final(self).wf(),
            final(self).prev == old(self).prev,
            final(self).next == old(self).next,
    {
        match self.search_key(&key) {
            Ok(index) => {
                assert(self.keys@.contains(key));
                false
            },
            Err(index) => {
                let ghost old_keys = self.keys@;
                self.keys.insert(index, key);
                self.values.insert(index, value);
                assert(!old_keys.contains(key)) by {
                    if old_keys.contains(key) {
                        let j = choose|j: int| 0 <= j < old_keys.len() && old_keys[j] == key;
                        assert(old_keys[j] == key);
                    }
                }
                assert(sorted(self.keys@)) by {
                    assert forall|a: int, b: int| 0 <= a < b < self.keys@.len() implies (
                    #[trigger] self.keys@[a]).rank() < (#[trigger] self.keys@[b]).rank() by {
                        if a < index && b < index {
                            assert(self.keys@[a] == old_keys[a]);
                        }
                    }
                }
                true
            },
        }
    }

    pub fn push_key_value(&mut self, key: K, value: V)
        ensures
            final(self).keys@ == old(self).keys@.push(key),
            final(self).values@ == old(self).values@.push(value),
            final(self).prev == old(self).prev,
            final(self).next == old(self).next,
    {
        self.keys.push(key);
        self.values.push(value);
    }

    pub fn insert_key_value(&mut self, index: usize, key: K, value: V)
        requires
            index <= old(self).keys@.len(),
            index <= old(self).values@.len(),
        ensures
            final(self).keys@ == old(self).keys@.insert(index as int, key),
            final(self).values@ == old(self).values@.insert(index as int, value),
            final(self).prev == old(self).prev,
            final(self).next == old(self).next,
    {
        self.keys.insert(index, key);
        self.values.insert(index, value);
    }

    /// The entries of this full leaf from position `FANOUT / 2` on, moved to a new
    /// leaf linked between this one (slot `self_id`) and its old `next`, to take slot
    /// `new_id`. Returns the new leaf's least key and the new leaf.
    fn split_upper_half(&mut self, self_id: usize, new_id: usize) -> (r: (K, Self))
        requires
            old(self).wf(),
            old(self).keys@.len() == FANOUT,
            FANOUT >= 3,
        ensures
            final(self).keys@ == old(self).keys@.take((FANOUT / 2) as int),
            final(self).values@ == old(self).values@.take((FANOUT / 2) as int),
            r.1.keys@ == old(self).keys@.skip((FANOUT / 2) as int),
            r.1.values@ == old(self).values@.skip((FANOUT / 2) as int),
            r.0 == r.1.keys@[0],
            final(self).prev == old(self).prev,
            final(self).next == Some(new_id),
            r.1.prev == Some(self_id),
            r.1.next == old(self).next,
    {
        let keys = self.keys.split_off(FANOUT / 2);
        let values = self.values.split_off(FANOUT / 2);
        let split_key = keys[0];
        let new_leaf = BPLeafNode::new_with(keys, values, Some(self_id), self.next);
        self.next = Some(new_id);
        assert(self.keys@ =~= old(self).keys@.take((FANOUT / 2) as int));
        assert(self.values@ =~= old(self).values@.take((FANOUT / 2) as int));
        assert(new_leaf.keys@ =~= old(self).keys@.skip((FANOUT / 2) as int));
        assert(new_leaf.values@ =~= old(self).values@.skip((FANOUT / 2) as int));
        (split_key, new_leaf)
    }

    /// Moves all entries of `other` into this leaf: appended where `other` is the next
    /// leaf, prepended where it is the previous one. This leaf takes over `other`'s
    /// link on that side; `other` is left empty and unlinked.
    fn absorb(&mut self, other: &mut Self, other_is_next: bool)
        ensures
            other_is_next ==> final(self).keys@ == old(self).keys@ + old(other).keys@
                && final(self).values@ == old(self).values@ + old(other).values@
                && final(self).next == old(other).next && final(self).prev == old(self).prev,
            !other_is_next ==> final(self).keys@ == old(other).keys@ + old(self).keys@
                && final(self).values@ == old(other).values@ + old(self).values@
                && final(self).prev == old(other).prev && final(self).next == old(self).next,
            final(other).keys@.len() == 0,
            final(other).values@.len() == 0,
            final(other).prev is None,
            final(other).next is None,
    {
        if other_is_next {
            self.keys.append(&mut other.keys);
            self.values.append(&mut other.values);
            self.next = other.next;
        } else {
            other.keys.append(&mut self.keys);
            other.values.append(&mut self.values);
            std::mem::swap(&mut self.keys, &mut other.keys);
            std::mem::swap(&mut self.values, &mut other.values);
            self.prev = other.prev;
        }
        other.prev = None;
        other.next = None;
    }

    /// Moves one entry of `other` into this leaf, on the side facing it: the first
    /// entry of a next leaf goes to the end, the last entry of a previous leaf to the
    /// front. Links are kept.
    pub fn steal(&mut self, other: &mut Self, other_is_next: bool)
        requires
            old(other).keys@.len() > 0,
            old(other).keys@.len() == old(other).values@.len(),
        ensures
            other_is_next ==> final(self).keys@ == old(self).keys@.push(old(other).keys@[0])
                && final(self).values@ == old(self).values@.push(old(other).values@[0])
                && final(other).keys@ == old(other).keys@.remove(0)
                && final(other).values@ == old(other).values@.remove(0),
            !other_is_next ==> final(self).keys@ == seq![old(other).keys@.last()] + old(self).keys@
                && final(self).values@ == seq![old(other).values@.last()] + old(self).values@
                && final(other).keys@ == old(other).keys@.drop_last()
                && final(other).values@ == old(other).values@.drop_last(),
            final(self).prev == old(self).prev,
            final(self).next == old(self).next,
            final(other).prev == old(other).prev,
            final(other).next == old(other).next,
    {
        if other_is_next {
            let k = other.keys.remove(0);
            let v = other.values.remove(0);
            self.keys.push(k);
            self.values.push(v);
        } else {
            let k = other.keys.pop().unwrap();
            let v = other.values.pop().unwrap();
            self.keys.insert(0, k);
            self.values.insert(0, v);
            assert(self.keys@ =~= seq![old(other).keys@.last()] + old(self).keys@);
            assert(self.values@ =~= seq![old(other).values@.last()] + old(self).values@);
        }
    }
}

impl<const FANOUT: usize, K: BPKey, V> BPLeafNode<FANOUT, K, V> {
    /// Splits the full leaf in slot `a` of the arena `leaves`, whose leaves in slots
    /// `pre`, `a`, `post` form the chain: the upper half of its entries, from
    /// position `FANOUT / 2` on, moves to a new leaf in the next free slot, linked
    /// in right after it; the leaf that followed it now links back to the new leaf.
    /// Returns the new leaf's least key and its slot.
    #[verifier::rlimit(100)]
    #[verifier::spinoff_prover]
    pub fn split_leaf_node(
        leaves: &mut Vec<Self>,
        a: usize,
        Ghost(pre): Ghost<Seq<usize>>,
        Ghost(post): Ghost<Seq<usize>>,
    ) -> (r: (K, usize))
        requires
            3 <= FANOUT < usize::MAX,
            BPNode::<FANOUT, K>::Leaf(a).inv(old(leaves)@),
            BPNode::<FANOUT, K>::Leaf(a).full(old(leaves)@),
            chain_ok(pre + seq![a] + post, old(leaves)@),
            (pre + seq![a] + post).no_duplicates(),
            old(leaves)@.len() < usize::MAX,
        ensures
            BPNode::<FANOUT, K>::Leaf(a).inv(final(leaves)@),
            r.1 == old(leaves)@.len(),
            BPNode::<FANOUT, K>::Leaf(r.1).inv(final(leaves)@),
            BPNode::<FANOUT, K>::Leaf(a).size_ok(final(leaves)@),
            BPNode::<FANOUT, K>::Leaf(r.1).size_ok(final(leaves)@),
            final(leaves)@[a as int].keys@ == old(leaves)@[a as int].keys@.take((FANOUT / 2) as int),
            final(leaves)@[a as int].values@ == old(leaves)@[a as int].values@.take((FANOUT / 2) as int),
            final(leaves)@[r.1 as int].keys@ == old(leaves)@[a as int].keys@.skip((FANOUT / 2) as int),
            final(leaves)@[r.1 as int].values@ == old(leaves)@[a as int].values@.skip((FANOUT / 2) as int),
            final(leaves)@[a as int].next == Some(r.1),
            final(leaves)@[r.1 as int].prev == Some(a),
            final(leaves)@[r.1 as int].next == old(leaves)@[a as int].next,
            old(leaves)@[a as int].next matches Some(c) ==> final(leaves)@[c as int].prev == Some(r.1),
            final(leaves)@[a as int].entries() + final(leaves)@[old(leaves)@.len() as int].entries()
                == old(leaves)@[a as int].entries(),
            final(leaves)@[old(leaves)@.len() as int].entries().len() > 0,
            r.0 == final(leaves)@[old(leaves)@.len() as int].entries()[0].0,
            final(leaves)@.len() == old(leaves)@.len() + 1,
            chain_ok(pre + seq![a, old(leaves)@.len() as usize] + post, final(leaves)@),
            (pre + seq![a, old(leaves)@.len() as usize] + post).no_duplicates(),
            forall|id: usize|
                id < old(leaves)@.len() && id != a ==> #[trigger] same_leaf(
                    old(leaves)@,
                    final(leaves)@,
                    id,
                ),
    {
        let ghost l1 = leaves@;
        let b = leaves.len();
        proof {
            let o = pre + seq![a] + post;
            assert(o[pre.len() as int] == a);
            assert(link_ok(o, l1, pre.len() as int));
            if post.len() > 0 {
                assert(o[pre.len() + 1int] == post[0]);
                assert(link_ok(o, l1, pre.len() + 1int));
                assert(post[0] != a);
            }
        }
        let (split_key, new_leaf) = leaves[a].split_upper_half(a, b);
        let ghost la = leaves@;
        let old_next = new_leaf.next;
        leaves.push(new_leaf);
        let ghost lb = leaves@;
        if let Some(c) = old_next {
            leaves[c].prev = Some(b);
        }
        proof {
            let l2 = leaves@;
            assert(la == l1.update(a as int, la[a as int]));
            assert(lb == la.push(lb[b as int]));
            assert(forall|id: int|
                0 <= id < l1.len() && id != a && (post.len() == 0 || id != post[0]) ==> #[trigger] l2[id].prev
                    == l1[id].prev && l2[id].next == l1[id].next);
            assert(post.len() > 0 ==> l2[post[0] as int].prev == Some(b) && l2[post[0] as int].next
                == l1[post[0] as int].next);
            lemma_chain_split(pre, a, post, l1, l2);
            crate::key::lemma_sorted_subrange(l1[a as int].keys@, 0, (FANOUT / 2) as int);
            crate::key::lemma_sorted_subrange(l1[a as int].keys@, (FANOUT / 2) as int, FANOUT as int);
            assert(l1[a as int].keys@.take((FANOUT / 2) as int) =~= l1[a as int].keys@.subrange(0, (FANOUT / 2) as int));
            assert(l1[a as int].keys@.skip((FANOUT / 2) as int) =~= l1[a as int].keys@.subrange((FANOUT / 2) as int, FANOUT as int));
            assert(l2[a as int].entries() + l2[b as int].entries() =~= l1[a as int].entries());
            assert(l2[b as int].entries()[0].0 == split_key);
        }
        (split_key, b)
    }

    /// Merges the leaf in slot `y` into the leaf in slot `x` before it, where the
    /// leaves in slots `pre`, `x`, `y`, `post` form the chain: the entries of `y` are
    /// appended to those of `x`, `x` takes over `y`'s `next` link, the leaf after `y`
    /// now links back to `x`, and `y` is left empty and out of the chain.
    pub fn merge(
        leaves: &mut Vec<Self>,
        x: usize,
        y: usize,
        Ghost(pre): Ghost<Seq<usize>>,
        Ghost(post): Ghost<Seq<usize>>,
    )
        requires
            chain_ok(pre + seq![x, y] + post, old(leaves)@),
            (pre + seq![x, y] + post).no_duplicates(),
        ensures
            final(leaves)@.len() == old(leaves)@.len(),
            final(leaves)@[x as int].keys@ == old(leaves)@[x as int].keys@ + old(leaves)@[y as int].keys@,
            final(leaves)@[x as int].values@ == old(leaves)@[x as int].values@ + old(
                leaves,
            )@[y as int].values@,
            final(leaves)@[x as int].prev == old(leaves)@[x as int].prev,
            final(leaves)@[x as int].next == old(leaves)@[y as int].next,
            old(leaves)@[y as int].next matches Some(c) ==> final(leaves)@[c as int].prev == Some(
                x,
            ),
            final(leaves)@[y as int].keys@.len() == 0,
            final(leaves)@[y as int].values@.len() == 0,
            final(leaves)@[y as int].prev is None,
            final(leaves)@[y as int].next is None,
            chain_ok(pre + seq![x] + post, final(leaves)@),
            (pre + seq![x] + post).no_duplicates(),
            forall|id: usize|
                id < old(leaves)@.len() && id != x && id != y ==> #[trigger] same_leaf(
                    old(leaves)@,
                    final(leaves)@,
                    id,
                ),
    {
        let ghost l1 = leaves@;
        let ghost t = pre + seq![x, y] + post;
        proof {
            let q = pre.len() as int;
            assert(t[q] == x && t[q + 1] == y);
            assert(link_ok(t, l1, q));
            assert(link_ok(t, l1, q + 1));
            if post.len() > 0 {
                assert(t[q + 2] == post[0]);
                assert(link_ok(t, l1, q + 2));
            }
        }
        let mut other = BPLeafNode::new();
        std::mem::swap(&mut leaves[y], &mut other);
        leaves[x].absorb(&mut other, true);
        std::mem::swap(&mut leaves[y], &mut other);
        let nx = leaves[x].next;
        if let Some(c) = nx {
            leaves[c].prev = Some(x);
        }
        proof {
            lemma_chain_merge(pre, x, y, post, l1, leaves@);
        }
    }
}

} // verus!
