use vstd::prelude::*;

use crate::key::{BPKey, sorted, search_result, search_sorted};
use crate::node::{BPLeafNode, BPNode, chain_ok};

verus! {

/// The left one of two neighbouring children: the one before `i` where `left`,
/// else `i` itself.
pub open spec fn pair_left(i: int, left: bool) -> int {
    if left {
        i - 1
    } else {
        i
    }
}

/// An index node: `keys.len()` separators between `keys.len() + 1` children.
#[derive(Debug)]
pub struct BPIndexNode<const FANOUT: usize, K> {
    pub keys: Vec<K>,
    pub children: Vec<BPNode<FANOUT, K>>,
}

impl<const FANOUT: usize, K: BPKey> BPIndexNode<FANOUT, K> {
    pub fn new() -> (r: Self)
        ensures
            r.keys@ == Seq::<K>::empty(),
            r.children@ == Seq::<BPNode<FANOUT, K>>::empty(),
    {
        BPIndexNode { keys: Vec::new(), children: Vec::new() }
    }

    pub fn new_with(keys: Vec<K>, children: Vec<BPNode<FANOUT, K>>) -> (r: Self)
        ensures
            r.keys == keys,
            r.children == children,
    {
        BPIndexNode { keys, children }
    }

    pub fn is_full(&self) -> (r: bool)
        ensures
            r == (self.keys@.len() == FANOUT),
    {
        self.keys.len() == FANOUT
    }

    /// One separator short of full.
    pub fn is_maxinum(&self) -> (r: bool)
        requires
            FANOUT >= 1,
        ensures
            r == (self.keys@.len() == FANOUT - 1),
    {
        self.keys.len() == FANOUT - 1
    }

    pub fn is_minimum(&self) -> (r: bool)
        requires
            FANOUT < usize::MAX,
        ensures
            r == (self.children@.len() == (FANOUT + 1) / 2),
    {
        self.children.len() == (FANOUT + 1) / 2
    }

    pub fn is_underflow(&self) -> (r: bool)
        requires
            FANOUT < usize::MAX,
        ensures
            r == (self.children@.len() < (FANOUT + 1) / 2),
    {
        self.children.len() < (FANOUT + 1) / 2
    }

    pub fn is_empty(&self) -> (r: bool)
        ensures
            r == (self.keys@.len() == 0),
    {
        self.keys.len() == 0
    }

    pub fn get_key(&self, index: usize) -> (r: Option<&K>)
        ensures
            index < self.keys@.len() ==> r == Some(&self.keys@[index as int]),
            index >= self.keys@.len() ==> r is None,
    {
        if index < self.keys.len() {
            Some(&self.keys[index])
        } else {
            None
        }
    }

    pub fn get_child(&self, index: usize) -> (r: Option<&BPNode<FANOUT, K>>)
        ensures
            index < self.children@.len() ==> r == Some(&self.children@[index as int]),
            index >= self.children@.len() ==> r is None,
    {
        if index < self.children.len() {
            Some(&self.children[index])
        } else {
            None
        }
    }

    pub fn get_child_mut(&mut self, index: usize) -> (r: &mut BPNode<FANOUT, K>)
        requires
            index < old(self).children@.len(),
        ensures
            *r == old(self).children@[index as int],
            final(self).children@ == old(self).children@.update(index as int, *final(r)),
            final(self).keys == old(self).keys,
    {
        &mut self.children[index]
    }

    pub fn get_children(&self) -> (r: &Vec<BPNode<FANOUT, K>>)
        ensures
            r == &self.children,
    {
        &self.children
    }

    pub fn push_key(&mut self, key: K)
        ensures
            final(self).keys@ == old(self).keys@.push(key),
            final(self).children == old(self).children,
    {
        self.keys.push(key);
    }

    pub fn push_child(&mut self, child: BPNode<FANOUT, K>)
        ensures
            final(self).children@ == old(self).children@.push(child),
            final(self).keys == old(self).keys,
    {
        self.children.push(child);
    }

    pub fn insert_key_at(&mut self, index: usize, key: K)
        requires
            index <= old(self).keys@.len(),
        ensures
            final(self).keys@ == old(self).keys@.insert(index as int, key),
            final(self).children == old(self).children,
    {
        self.keys.insert(index, key);
    }

    pub fn remove_key(&mut self, index: usize) -> (r: K)
        requires
            index < old(self).keys@.len(),
        ensures
            r == old(self).keys@[index as int],
            final(self).keys@ == old(self).keys@.remove(index as int),
            final(self).children == old(self).children,
    {
        self.keys.remove(index)
    }

    pub fn set_key(&mut self, index: usize, key: K)
        requires
            index < old(self).keys@.len(),
        ensures
            final(self).keys@ == old(self).keys@.update(index as int, key),
            final(self).children == old(self).children,
    {
        self.keys.set(index, key);
    }

    pub fn insert_child_at(&mut self, index: usize, child: BPNode<FANOUT, K>)
        requires
            index <= old(self).children@.len(),
        ensures
            final(self).children@ == old(self).children@.insert(index as int, child),
            final(self).keys == old(self).keys,
    {
        self.children.insert(index, child);
    }

    pub fn remove_child(&mut self, index: usize) -> (r: BPNode<FANOUT, K>)
        requires
            index < old(self).children@.len(),
        ensures
            r == old(self).children@[index as int],
            final(self).children@ == old(self).children@.remove(index as int),
            final(self).keys == old(self).keys,
    {
        self.children.remove(index)
    }

    pub fn search_key(&self, key: &K) -> (r: Result<usize, usize>)
        requires
            sorted(self.keys@),
        ensures
            search_result(self.keys@, *key, r),
    {
        search_sorted(&self.keys, key)
    }

    /// The child to descend into for `key`: the one right of the largest separator
    /// not above `key`. The flag tells whether that separator equals `key`.
    pub fn get_index_of(&self, key: &K) -> (r: (bool, usize))
        requires
            sorted(self.keys@),
            self.keys@.len() < usize::MAX,
        ensures
            r.1 <= self.keys@.len(),
            r.1 > 0 ==> self.keys@[r.1 - 1].rank() <= key.rank(),
            r.1 < self.keys@.len() ==> key.rank() < self.keys@[r.1 as int].rank(),
            r.0 == (r.1 > 0 && self.keys@[r.1 - 1] == *key),
    {
        match search_sorted(&self.keys, key) {
            Ok(index) => {
                proof {
                    if index + 1 < self.keys@.len() {
                        assert(self.keys@[index as int].rank() < self.keys@[index + 1].rank());
                    }
                }
                (true, index + 1)
            },
            Err(index) => (false, index),
        }
    }

    /// The sibling that an underflowing child at `index` works with: the left one
    /// where there is one, else the right one.
    pub fn get_sibiling_index(&self, index: usize) -> (r: usize)
        requires
            index < usize::MAX,
        ensures
            index > 0 ==> r == index - 1,
            index == 0 ==> r == 1,
    {
        if index > 0 {
            index - 1
        } else {
            index + 1
        }
    }

    /// Splits a full index node: the separator at `FANOUT / 2` is promoted, and the
    /// separators and children right of it move to a new index node. Returns the
    /// promoted separator and the new node.
    pub fn split_node(&mut self) -> (r: (K, Self))
        requires
            old(self).keys@.len() == FANOUT,
            old(self).children@.len() == FANOUT + 1,
            FANOUT >= 3,
        ensures
            r.0 == old(self).keys@[(FANOUT / 2) as int],
            final(self).keys@ == old(self).keys@.take((FANOUT / 2) as int),
            final(self).children@ == old(self).children@.take((FANOUT / 2 + 1) as int),
            r.1.keys@ == old(self).keys@.skip((FANOUT / 2 + 1) as int),
            r.1.children@ == old(self).children@.skip((FANOUT / 2 + 1) as int),
    {
        let split_key = self.keys[FANOUT / 2];
        let keys = self.keys.split_off(FANOUT / 2 + 1);
        let children = self.children.split_off(FANOUT / 2 + 1);
        self.keys.pop();
        assert(self.keys@ =~= old(self).keys@.take((FANOUT / 2) as int));
        assert(self.children@ =~= old(self).children@.take((FANOUT / 2 + 1) as int));
        assert(keys@ =~= old(self).keys@.skip((FANOUT / 2 + 1) as int));
        assert(children@ =~= old(self).children@.skip((FANOUT / 2 + 1) as int));
        (split_key, BPIndexNode::new_with(keys, children))
    }

    /// Merges the child at `to_remove` with its left neighbour (`merge_into_left`)
    /// or its right one, into the left one of the two, and drops the separator
    /// between them.
    pub fn merge_children<V>(
        &mut self,
        leaves: &mut Vec<BPLeafNode<FANOUT, K, V>>,
        to_remove: usize,
        merge_into_left: bool,
        Ghost(pre): Ghost<Seq<usize>>,
        Ghost(post): Ghost<Seq<usize>>,
    )
        requires
            merge_into_left ==> to_remove >= 1,
            ({
                let j = pair_left(to_remove as int, merge_into_left);
                let a = old(self).children@[j];
                let b = old(self).children@[j + 1];
                &&& j + 1 < old(self).children@.len()
                &&& old(self).keys@.len() + 1 == old(self).children@.len()
                &&& old(self).keys@.len() <= FANOUT
                &&& a.pair_ok(b, old(leaves)@, pre, post)
                &&& a.size(old(leaves)@) + b.size(old(leaves)@) <= a.max_size()
            }),
        ensures
            ({
                let j = pair_left(to_remove as int, merge_into_left);
                let a = old(self).children@[j];
                let b = old(self).children@[j + 1];
                let m = final(self).children@[j];
                &&& final(self).keys@ == old(self).keys@.remove(j)
                &&& final(self).children@ == old(self).children@.remove(j + 1).update(j, m)
                &&& m.inv(final(leaves)@)
                &&& m.height() == a.height()
                &&& m.ents_of(final(leaves)@) == a.ents_of(old(leaves)@) + b.ents_of(old(leaves)@)
                &&& m.size(final(leaves)@) == a.size(old(leaves)@) + b.size(old(leaves)@)
                &&& chain_ok(pre + m.leaf_ids() + post, final(leaves)@)
                &&& (pre + m.leaf_ids() + post).no_duplicates()
                &&& forall|id: usize| #[trigger]
                    m.leaf_ids().contains(id) ==> (a.leaf_ids() + b.leaf_ids()).contains(id)
                &&& a.pair_frame(b, old(leaves)@, final(leaves)@)
                &&& a is Leaf ==> {
                    &&& m == a
                    &&& final(leaves)@[a->Leaf_0 as int].keys@ == old(leaves)@[a->Leaf_0 as int].keys@
                        + old(leaves)@[b->Leaf_0 as int].keys@
                    &&& final(leaves)@[a->Leaf_0 as int].values@ == old(
                        leaves,
                    )@[a->Leaf_0 as int].values@ + old(leaves)@[b->Leaf_0 as int].values@
                }
                &&& a is Index ==> {
                    &&& m is Index
                    &&& m->Index_0.keys@ == a->Index_0.keys@ + seq![
                        b.ents_of(old(leaves)@)[0].0,
                    ] + b->Index_0.keys@
                    &&& m->Index_0.children@ == a->Index_0.children@ + b->Index_0.children@
                }
            }),
    {
        let j = if merge_into_left { to_remove - 1 } else { to_remove };
        let b = self.children.remove(j + 1);
        self.keys.remove(j);
        self.children[j].merge_node(b, leaves, Ghost(pre), Ghost(post));
        proof {
            let m = self.children@[j as int];
            assert(self.children@ =~= old(self).children@.remove(j + 1).update(j as int, m));
        }
    }

    /// Moves one entry or child into the underflowing child at `target_index` from
    /// its left neighbour (`rebalance_from_left`) or its right one, and sets the
    /// separator between the two to the new least key of the right one.
    pub fn rebalance_children<V>(
        &mut self,
        leaves: &mut Vec<BPLeafNode<FANOUT, K, V>>,
        target_index: usize,
        rebalance_from_left: bool,
        Ghost(pre): Ghost<Seq<usize>>,
        Ghost(post): Ghost<Seq<usize>>,
    )
        requires
            rebalance_from_left ==> target_index >= 1,
            ({
                let j = pair_left(target_index as int, rebalance_from_left);
                let a = old(self).children@[j];
                let b = old(self).children@[j + 1];
                &&& j + 1 < old(self).children@.len()
                &&& old(self).keys@.len() + 1 == old(self).children@.len()
                &&& old(self).keys@.len() <= FANOUT
                &&& a.pair_ok(b, old(leaves)@, pre, post)
                &&& rebalance_from_left ==> a.size(old(leaves)@) >= 2 && b.size(old(leaves)@) + 1
                    <= b.max_size()
                &&& !rebalance_from_left ==> b.size(old(leaves)@) >= 2 && a.size(old(leaves)@) + 1
                    <= a.max_size()
            }),
        ensures
            ({
                let j = pair_left(target_index as int, rebalance_from_left);
                let a = old(self).children@[j];
                let b = old(self).children@[j + 1];
                let a2 = final(self).children@[j];
                let b2 = final(self).children@[j + 1];
                &&& final(self).keys@ == old(self).keys@.update(j, b2.ents_of(final(leaves)@)[0].0)
                &&& final(self).children@ == old(self).children@.update(j, a2).update(j + 1, b2)
                &&& a.borrow_post(b, a2, b2, old(leaves)@, final(leaves)@, pre, post)
                &&& rebalance_from_left ==> a2.size(final(leaves)@) == a.size(old(leaves)@) - 1
                    && b2.size(final(leaves)@) == b.size(old(leaves)@) + 1
                &&& !rebalance_from_left ==> a2.size(final(leaves)@) == a.size(old(leaves)@) + 1
                    && b2.size(final(leaves)@) == b.size(old(leaves)@) - 1
            }),
    {
        let j = if rebalance_from_left { target_index - 1 } else { target_index };
        let mut b = self.children.remove(j + 1);
        let r = if rebalance_from_left {
            self.children[j].borrow_from_left(&mut b, leaves, Ghost(pre), Ghost(post))
        } else {
            self.children[j].borrow_from_right(&mut b, leaves, Ghost(pre), Ghost(post))
        };
        self.children.insert(j + 1, b);
        self.keys.set(j, r);
        proof {
            let a2 = self.children@[j as int];
            let b2 = self.children@[j + 1];
            assert(self.children@ =~= old(self).children@.update(j as int, a2).update(j + 1, b2));
        }
    }
}

} // verus!
