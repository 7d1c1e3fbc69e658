use vstd::prelude::*;

pub mod bp_index_node;
pub mod bp_leaf_node;
pub mod lemmas;
pub mod insertion;
pub mod rebalance;
pub mod removal;
pub mod reshape;

pub use bp_index_node::BPIndexNode;
pub use bp_leaf_node::BPLeafNode;

use crate::key::{BPKey, search_result};
use crate::node::removal::{
    lemma_remove_descend, lemma_remove_merged, lemma_remove_pair_pre, lemma_remove_plain,
    lemma_remove_rebalanced, pair_start,
};
use crate::node::insertion::{
    lemma_insert_descend, lemma_insert_plain, lemma_insert_split};
use crate::node::lemmas::{
    lemma_chain_same_links, lemma_ids_of_single, lemma_ids_of_split, lemma_offset_mono,
    lemma_separator, lemma_chain_split, lemma_child_ents, lemma_ents_at_concat, lemma_ents_at_single,
    lemma_ents_sorted_subrange, lemma_first_child, lemma_ids_of_concat, lemma_inv_sorted,
    lemma_nonempty, lemma_route, lemma_separators_sorted, offset, same_leaf,
};

verus! {

/// A node of the tree: an index node that owns its children, or a leaf, named by
/// its slot in the tree's leaf arena.
#[derive(Debug)]
pub enum BPNode<const FANOUT: usize, K> {
    Index(BPIndexNode<FANOUT, K>),
    Leaf(usize),
}

/// The arena slots of the leaves below the nodes of `cs`, left to right.
pub open spec fn ids_of<const FANOUT: usize, K: BPKey>(cs: Seq<BPNode<FANOUT, K>>) -> Seq<usize>
    decreases cs,
{
    if cs.len() == 0 {
        Seq::empty()
    } else {
        ids_of(cs.drop_last()) + cs.last().leaf_ids()
    }
}

/// The entries of the leaves in slots `ids`, in that order.
pub open spec fn ents_at<const FANOUT: usize, K: BPKey, V>(
    leaves: Seq<BPLeafNode<FANOUT, K, V>>,
    ids: Seq<usize>,
) -> Seq<(K, V)>
    decreases ids.len(),
{
    if ids.len() == 0 {
        Seq::empty()
    } else {
        ents_at(leaves, ids.drop_last()) + leaves[ids.last() as int].entries()
    }
}

/// Entries in strictly ascending order of key.
pub open spec fn ents_sorted<K: BPKey, V>(s: Seq<(K, V)>) -> bool {
    forall|i: int, j: int|
        0 <= i < j < s.len() ==> (#[trigger] s[i]).0.rank() < (#[trigger] s[j]).0.rank()
}

/// The leaf in slot `ids[j]` links back to the one before it in `ids` and on to
/// the one after it; the first has no `prev`, the last no `next`.
pub open spec fn link_ok<const FANOUT: usize, K, V>(
    ids: Seq<usize>,
    leaves: Seq<BPLeafNode<FANOUT, K, V>>,
    j: int,
) -> bool {
    &&& ids[j] < leaves.len()
    &&& leaves[ids[j] as int].prev == (if j == 0 {
        None::<usize>
    } else {
        Some(ids[j - 1])
    })
    &&& leaves[ids[j] as int].next == (if j + 1 == ids.len() {
        None::<usize>
    } else {
        Some(ids[j + 1])
    })
}

/// The leaves in slots `ids`, in that order, form the doubly linked leaf chain.
pub open spec fn chain_ok<const FANOUT: usize, K, V>(
    ids: Seq<usize>,
    leaves: Seq<BPLeafNode<FANOUT, K, V>>,
) -> bool {
    forall|j: int| 0 <= j < ids.len() ==> #[trigger] link_ok(ids, leaves, j)
}

/// Least number of keys of a leaf other than the root.
pub open spec fn leaf_min(fanout: int) -> int {
    fanout / 2
}

/// Least number of children of an index node other than the root.
pub open spec fn index_min(fanout: int) -> int {
    (fanout + 1) / 2
}

impl<const FANOUT: usize, K: BPKey> BPNode<FANOUT, K> {
    /// The arena slots of the leaves below this node, left to right.
    pub open spec fn leaf_ids(self) -> Seq<usize>
        decreases self,
    {
        match self {
            BPNode::Leaf(id) => seq![id],
            BPNode::Index(ix) => ids_of(ix.children@),
        }
    }

    /// Distance from this node to its leftmost leaf.
    pub open spec fn height(self) -> nat
        decreases self,
    {
        match self {
            BPNode::Leaf(_) => 0,
            BPNode::Index(ix) => if ix.children@.len() > 0 {
                ix.children@[0].height() + 1
            } else {
                1
            },
        }
    }

    /// The entries below this node, in the order of the leaves.
    pub open spec fn ents_of<V>(self, leaves: Seq<BPLeafNode<FANOUT, K, V>>) -> Seq<(K, V)> {
        ents_at(leaves, self.leaf_ids())
    }

    /// Number of keys of a leaf, number of children of an index node.
    pub open spec fn size<V>(self, leaves: Seq<BPLeafNode<FANOUT, K, V>>) -> int {
        match self {
            BPNode::Leaf(id) => leaves[id as int].keys@.len() as int,
            BPNode::Index(ix) => ix.children@.len() as int,
        }
    }

    /// The occupancy bounds of a node other than the root: a leaf holds between
    /// `FANOUT / 2` and `FANOUT - 1` keys, an index node between `(FANOUT + 1) / 2`
    /// and `FANOUT` children.
    pub open spec fn size_ok<V>(self, leaves: Seq<BPLeafNode<FANOUT, K, V>>) -> bool {
        match self {
            BPNode::Leaf(id) => leaf_min(FANOUT as int) <= self.size(leaves) < FANOUT,
            BPNode::Index(ix) => index_min(FANOUT as int) <= self.size(leaves) <= FANOUT,
        }
    }

    /// The subtree's shape and order: leaves well formed, every index node with one
    /// child more than keys, its children within their occupancy bounds and of equal
    /// height, each separator the least key to its right, and the keys ascending.
    pub open spec fn inv<V>(self, leaves: Seq<BPLeafNode<FANOUT, K, V>>) -> bool
        decreases self,
    {
        match self {
            BPNode::Leaf(id) => 0 <= id < leaves.len() && leaves[id as int].wf(),
            BPNode::Index(ix) => {
                &&& ix.children@.len() == ix.keys@.len() + 1
                &&& ix.keys@.len() <= FANOUT
                &&& forall|i: int|
                    0 <= i < ix.children@.len() ==> {
                        &&& (#[trigger] ix.children@[i]).inv(leaves)
                        &&& ix.children@[i].size_ok(leaves)
                        &&& ix.children@[i].height() == ix.children@[0].height()
                    }
                &&& forall|i: int|
                    0 <= i < ix.keys@.len() ==> #[trigger] ix.keys@[i] == ix.children@[i
                        + 1].ents_of(leaves)[0].0
                &&& ents_sorted(self.ents_of(leaves))
            },
        }
    }
}

/// The map that a run of entries with distinct keys describes.
pub open spec fn ents_map<K, V>(s: Seq<(K, V)>) -> Map<K, V> {
    Map::new(
        |k: K| exists|j: int| 0 <= j < s.len() && s[j].0 == k,
        |k: K| s[choose|j: int| 0 <= j < s.len() && s[j].0 == k].1,
    )
}

/// Where `key` stands in `s`, and a value found for it there.
pub open spec fn found_at<K, V>(s: Seq<(K, V)>, key: K, j: int) -> bool {
    0 <= j < s.len() && s[j].0 == key
}

impl<const FANOUT: usize, K: BPKey> BPNode<FANOUT, K> {
    pub fn new_leaf(id: usize) -> (r: Self)
        ensures
            r == BPNode::<FANOUT, K>::Leaf(id),
    {
        BPNode::Leaf(id)
    }

    pub fn new_index() -> (r: Self)
        ensures
            r matches BPNode::Index(ix) && ix.keys@.len() == 0 && ix.children@.len() == 0,
    {
        BPNode::Index(BPIndexNode::new())
    }

    pub fn is_leaf(&self) -> (r: bool)
        ensures
            r == self is Leaf,
    {
        match self {
            BPNode::Leaf(_) => true,
            BPNode::Index(_) => false,
        }
    }

    pub fn is_index(&self) -> (r: bool)
        ensures
            r == self is Index,
    {
        match self {
            BPNode::Leaf(_) => false,
            BPNode::Index(_) => true,
        }
    }

    /// The arena slot of a leaf.
    pub fn as_leaf(&self) -> (r: usize)
        requires
            self is Leaf,
        ensures
            r == self->Leaf_0,
    {
        match self {
            BPNode::Leaf(id) => *id,
            BPNode::Index(_) => 0,
        }
    }

    pub fn as_index(&self) -> (r: &BPIndexNode<FANOUT, K>)
        requires
            self is Index,
        ensures
            *r == self->Index_0,
    {
        match self {
            BPNode::Index(ix) => ix,
            BPNode::Leaf(_) => unreached(),
        }
    }

    pub fn as_index_mut(&mut self) -> (r: &mut BPIndexNode<FANOUT, K>)
        requires
            (*old(self)) is Index,
        ensures
            *r == old(self)->Index_0,
            *final(self) == BPNode::<FANOUT, K>::Index(*final(r)),
    {
        match self {
            BPNode::Index(ix) => ix,
            BPNode::Leaf(_) => unreached(),
        }
    }

    /// Searches the keys of this node: a leaf's keys, or an index node's separators.
    pub fn search_key<V>(&self, leaves: &Vec<BPLeafNode<FANOUT, K, V>>, key: &K) -> (r: Result<
        usize,
        usize,
    >)
        requires
            3 <= FANOUT < usize::MAX,
            self.inv(leaves@),
        ensures
            match *self {
                BPNode::Leaf(id) => search_result(leaves@[id as int].keys@, *key, r),
                BPNode::Index(ix) => search_result(ix.keys@, *key, r),
            },
    {
        match self {
            BPNode::Leaf(id) => leaves[*id].search_key(key),
            BPNode::Index(ix) => {
                proof {
                    lemma_separators_sorted(*self, leaves@);
                }
                ix.search_key(key)
            },
        }
    }

    /// One key short of full: `FANOUT - 1` keys in a leaf, `FANOUT - 1` separators
    /// in an index node.
    pub fn is_maxinum<V>(&self, leaves: &Vec<BPLeafNode<FANOUT, K, V>>) -> (r: bool)
        requires
            self.inv(leaves@),
            FANOUT >= 1,
        ensures
            r == match *self {
                BPNode::Leaf(id) => leaves@[id as int].keys@.len() == FANOUT - 1,
                BPNode::Index(ix) => ix.keys@.len() == FANOUT - 1,
            },
    {
        match self {
            BPNode::Leaf(id) => leaves[*id].keys.len() == FANOUT - 1,
            BPNode::Index(ix) => ix.is_maxinum(),
        }
    }

    /// The least key below this node.
    pub fn minimum<V>(&self, leaves: &Vec<BPLeafNode<FANOUT, K, V>>) -> (r: K)
        requires
            FANOUT >= 3,
            self.inv(leaves@),
            self.ents_of(leaves@).len() > 0,
        ensures
            r == self.ents_of(leaves@)[0].0,
        decreases self,
    {
        match self {
            BPNode::Leaf(id) => {
                proof {
                    lemma_ents_at_single(leaves@, *id);
                }
                leaves[*id].keys[0]
            },
            BPNode::Index(ix) => {
                proof {
                    lemma_first_child(*self, leaves@);
                }
                ix.children[0].minimum(leaves)
            },
        }
    }

    /// Where the entry for `key` below this node is kept: its leaf's arena slot and
    /// its position in that leaf.
    pub fn locate<V>(&self, leaves: &Vec<BPLeafNode<FANOUT, K, V>>, key: &K) -> (r: Option<
        (usize, usize),
    >)
        requires
            3 <= FANOUT < usize::MAX,
            self.inv(leaves@),
        ensures
            r is Some <==> exists|j: int| found_at(self.ents_of(leaves@), *key, j),
            r matches Some((id, i)) ==> {
                &&& id < leaves@.len()
                &&& i < leaves@[id as int].values@.len()
                &&& exists|j: int|
                    found_at(self.ents_of(leaves@), *key, j) && self.ents_of(leaves@)[j].1
                        == leaves@[id as int].values@[i as int]
            },
        decreases self,
    {
        match self {
            BPNode::Leaf(id) => {
                let leaf = &leaves[*id];
                proof {
                    lemma_ents_at_single(leaves@, *id);
                }
                match leaf.search_key(key) {
                    Ok(i) => {
                        assert(found_at(self.ents_of(leaves@), *key, i as int));
                        Some((*id, i))
                    },
                    Err(i) => {
                        proof {
                            if exists|j: int| found_at(self.ents_of(leaves@), *key, j) {
                                let j = choose|j: int| found_at(self.ents_of(leaves@), *key, j);
                                assert(leaf.keys@[j] == *key);
                            }
                        }
                        None
                    },
                }
            },
            BPNode::Index(ix) => {
                proof {
                    lemma_separators_sorted(*self, leaves@);
                }
                let (_, pos) = ix.get_index_of(key);
                let child = &ix.children[pos];
                let r = child.locate(leaves, key);
                proof {
                    let cs = ix.children@;
                    let es = self.ents_of(leaves@);
                    let o = offset(cs, leaves@, pos as int);
                    lemma_route(*self, leaves@, *key, pos as int);
                    lemma_child_ents(*self, leaves@, pos as int);
                    let ce = child.ents_of(leaves@);
                    if let Some((id, i)) = r {
                        let j = choose|j: int|
                            found_at(ce, *key, j) && ce[j].1 == leaves@[id as int].values@[i as int];
                        assert(es[o + j] == ce[j]);
                        assert(found_at(es, *key, o + j));
                    } else if exists|j: int| found_at(es, *key, j) {
                        let j = choose|j: int| found_at(es, *key, j);
                        assert(es[j].0.rank() == key.rank());
                        assert(ce[j - o] == es[j]);
                        assert(found_at(ce, *key, j - o));
                    }
                }
                r
            },
        }
    }

    /// The value stored below this node for `key`, cloned.
    pub fn search_recur<V: Clone>(&self, leaves: &Vec<BPLeafNode<FANOUT, K, V>>, key: &K) -> (r:
        Option<V>)
        requires
            3 <= FANOUT < usize::MAX,
            self.inv(leaves@),
        ensures
            r is Some <==> exists|j: int| found_at(self.ents_of(leaves@), *key, j),
            r is Some ==> exists|j: int|
                found_at(self.ents_of(leaves@), *key, j) && cloned(
                    self.ents_of(leaves@)[j].1,
                    r->0,
                ),
    {
        match self.locate(leaves, key) {
            Some((id, i)) => Some(leaves[id].values[i].clone()),
            None => None,
        }
    }

    /// What an insertion below this node asks: the subtree well formed and not full,
    /// its leaves part of a chain `pre`, its own, `post`, and room in the arena for one
    /// more leaf.
    pub open spec fn insert_ready<V>(
        self,
        leaves: Seq<BPLeafNode<FANOUT, K, V>>,
        pre: Seq<usize>,
        post: Seq<usize>,
    ) -> bool {
        &&& 3 <= FANOUT < usize::MAX
        &&& self.inv(leaves)
        &&& self.below_full(leaves)
        &&& chain_ok(pre + self.leaf_ids() + post, leaves)
        &&& (pre + self.leaf_ids() + post).no_duplicates()
        &&& leaves.len() + 1 < usize::MAX
    }

    /// `insert_ready`, with `key` absent below this node.
    pub open spec fn insert_pre<V>(
        self,
        leaves: Seq<BPLeafNode<FANOUT, K, V>>,
        key: K,
        pre: Seq<usize>,
        post: Seq<usize>,
    ) -> bool {
        &&& self.insert_ready(leaves, pre, post)
        &&& !exists|j: int| found_at(self.ents_of(leaves), key, j)
    }

    /// What an insertion below this node gives: `n2`, well formed, of the same
    /// height and kind, no smaller, holding the entries of this node with `(key,
    /// value)` added in order; at most one new leaf, in a fresh slot; other leaves'
    /// entries kept; the chain intact.
    pub open spec fn insert_post<V>(
        self,
        n2: Self,
        l1: Seq<BPLeafNode<FANOUT, K, V>>,
        l2: Seq<BPLeafNode<FANOUT, K, V>>,
        key: K,
        value: V,
        pre: Seq<usize>,
        post: Seq<usize>,
    ) -> bool {
        &&& n2.inv(l2)
        &&& n2.height() == self.height()
        &&& (n2 is Leaf) == (self is Leaf)
        &&& n2.size(l2) >= self.size(l1)
        &&& n2 is Leaf ==> n2.size(l2) <= FANOUT
        &&& exists|p: int|
            0 <= p <= self.ents_of(l1).len() && n2.ents_of(l2) == self.ents_of(l1).insert(
                p,
                (key, value),
            )
        &&& l2.len() == l1.len() || (self is Index && l2.len() == l1.len() + 1)
        &&& forall|id: usize|
            id < l1.len() && #[trigger] n2.leaf_ids().contains(id) ==> self.leaf_ids().contains(id)
        &&& forall|id: usize|
            id < l1.len() && !self.leaf_ids().contains(id) ==> #[trigger] same_leaf(l1, l2, id)
        &&& chain_ok(pre + n2.leaf_ids() + post, l2)
        &&& (pre + n2.leaf_ids() + post).no_duplicates()
    }

    /// Inserts `key` with `value` below this node. Where the key is present, nothing
    /// changes. Otherwise a child left full by the insertion is split here, one level
    /// above it; this node itself may be left full, for its parent to split.
    pub fn insert_recur<V>(
        &mut self,
        leaves: &mut Vec<BPLeafNode<FANOUT, K, V>>,
        key: K,
        value: V,
        Ghost(pre): Ghost<Seq<usize>>,
        Ghost(post): Ghost<Seq<usize>>,
    )
        requires
            old(self).insert_ready(old(leaves)@, pre, post),
        ensures
            (exists|j: int| found_at(old(self).ents_of(old(leaves)@), key, j)) ==> *final(self)
                == *old(self) && *final(leaves) == *old(leaves),
            !(exists|j: int| found_at(old(self).ents_of(old(leaves)@), key, j)) ==> old(
                self,
            ).insert_post(*final(self), old(leaves)@, final(leaves)@, key, value, pre, post),
    {
        if self.locate(leaves, &key).is_some() {
            return;
        }
        self.insert_absent(leaves, key, value, Ghost(pre), Ghost(post));
    }

    /// Inserts the absent `key` with `value` below this node.
    fn insert_absent<V>(
        &mut self,
        leaves: &mut Vec<BPLeafNode<FANOUT, K, V>>,
        key: K,
        value: V,
        Ghost(pre): Ghost<Seq<usize>>,
        Ghost(post): Ghost<Seq<usize>>,
    )
        requires
            old(self).insert_pre(old(leaves)@, key, pre, post),
        ensures
            old(self).insert_post(
                *final(self),
                old(leaves)@,
                final(leaves)@,
                key,
                value,
                pre,
                post,
            ),
        decreases old(self).height(),
    {
        let ghost l1 = leaves@;
        let ghost n = *old(self);
        match self {
            BPNode::Leaf(id) => {
                let a = *id;
                Self::insert_leaf(a, leaves, key, value, Ghost(pre), Ghost(post));
            },
            BPNode::Index(ix) => {
                proof {
                    lemma_separators_sorted(n, l1);
                }
                let (found, pos) = ix.get_index_of(&key);
                proof {
                    if found {
                        lemma_separator(n, l1, pos - 1);
                        assert(found_at(n.ents_of(l1), key, offset(ix.children@, l1, pos as int)));
                    }
                    if pos > 0 {
                        K::lemma_rank_injective(ix.keys@[pos - 1], key);
                    }
                }
                let ghost cs = ix.children@;
                let ghost pre2 = pre + ids_of(cs.take(pos as int));
                let ghost post2 = ids_of(cs.skip(pos + 1)) + post;
                proof {
                    lemma_insert_descend(n, l1, pos as int, key, pre, post);
                }
                ix.children[pos].insert_absent(leaves, key, value, Ghost(pre2), Ghost(post2));
                let ghost lm = leaves@;
                let ghost c1 = ix.children@[pos as int];
                if ix.children[pos].is_full(leaves) {
                    let (split_key, right) = ix.children[pos].split_node(
                        leaves,
                        Ghost(pre2),
                        Ghost(post2),
                    );
                    let ghost left = ix.children@[pos as int];
                    ix.keys.insert(pos, split_key);
                    ix.children.insert(pos + 1, right);
                    proof {
                        assert(ix.children@ =~= cs.update(pos as int, left).insert(pos + 1, right));
                        lemma_insert_split(
                            n,
                            *self,
                            l1,
                            lm,
                            leaves@,
                            pos as int,
                            c1,
                            left,
                            right,
                            split_key,
                            key,
                            value,
                            pre,
                            post,
                        );
                    }
                } else {
                    proof {
                        lemma_insert_plain(n, *self, l1, lm, pos as int, key, value, pre, post);
                    }
                }
            },
        }
    }

    /// Removes `key` from below this node. Where the key is absent, nothing changes.
    /// Otherwise a child left below its least occupancy is merged with its
    /// neighbour, where that one is at its least, or takes one entry or child from
    /// it; either happens here, one level above the child. Where the key was the
    /// separator left of the child, that separator becomes the child's new least key.
    pub fn remove_recur<V>(
        &mut self,
        leaves: &mut Vec<BPLeafNode<FANOUT, K, V>>,
        key: &K,
        Ghost(pre): Ghost<Seq<usize>>,
        Ghost(post): Ghost<Seq<usize>>,
    )
        requires
            old(self).remove_ready(old(leaves)@, pre, post),
        ensures
            !(exists|j: int| found_at(old(self).ents_of(old(leaves)@), *key, j)) ==> *final(self)
                == *old(self) && *final(leaves) == *old(leaves),
            (exists|j: int| found_at(old(self).ents_of(old(leaves)@), *key, j)) ==> old(
                self,
            ).remove_post(*final(self), old(leaves)@, final(leaves)@, *key, pre, post),
    {
        if self.locate(leaves, key).is_none() {
            return;
        }
        self.remove_present(leaves, key, Ghost(pre), Ghost(post));
    }

    /// Removes the present `key` from below this node.
    #[verifier::rlimit(60)]
    #[verifier::spinoff_prover]
    fn remove_present<V>(
        &mut self,
        leaves: &mut Vec<BPLeafNode<FANOUT, K, V>>,
        key: &K,
        Ghost(pre): Ghost<Seq<usize>>,
        Ghost(post): Ghost<Seq<usize>>,
    )
        requires
            old(self).remove_pre(old(leaves)@, *key, pre, post),
        ensures
            old(self).remove_post(*final(self), old(leaves)@, final(leaves)@, *key, pre, post),
        decreases old(self).height(),
    {
        let ghost l1 = leaves@;
        let ghost n = *old(self);
        match self {
            BPNode::Leaf(id) => {
                let a = *id;
                Self::remove_leaf(a, leaves, key, Ghost(pre), Ghost(post));
            },
            BPNode::Index(ix) => {
                proof {
                    lemma_separators_sorted(n, l1);
                }
                let (exist, pos) = ix.get_index_of(key);
                let ghost cs = ix.children@;
                let ghost keys = ix.keys@;
                let ghost pre2 = pre + ids_of(cs.take(pos as int));
                let ghost post2 = ids_of(cs.skip(pos + 1)) + post;
                proof {
                    lemma_remove_descend(n, l1, pos as int, *key, pre, post);
                }
                ix.children[pos].remove_present(leaves, key, Ghost(pre2), Ghost(post2));
                let ghost lm = leaves@;
                let ghost c1 = ix.children@[pos as int];
                if ix.children[pos].is_underflow(leaves) {
                    let sib = ix.get_sibiling_index(pos);
                    let from_left = sib < pos;
                    let ghost j = pair_start(pos as int);
                    let ghost pre3 = pre + ids_of(cs.take(j));
                    let ghost post3 = ids_of(cs.skip(j + 2)) + post;
                    proof {
                        lemma_remove_pair_pre(n, l1, lm, pos as int, c1, *key, pre, post);
                        assert(ix.children@ == cs.update(pos as int, c1));
                        assert(from_left == (pos > 0));
                        assert(j == crate::node::bp_index_node::pair_left(pos as int, from_left));
                        assert(ix.children@[sib as int] == (if pos > 0 { cs[pos - 1] } else { cs[1] }));
                    }
                    if ix.children[sib].is_minimum(leaves) {
                        ix.merge_children(leaves, pos, from_left, Ghost(pre3), Ghost(post3));
                        proof {
                            lemma_remove_merged(n, *self, l1, lm, leaves@, pos as int, c1, *key, pre, post);
                        }
                    } else {
                        ix.rebalance_children(leaves, pos, from_left, Ghost(pre3), Ghost(post3));
                        proof {
                            lemma_remove_rebalanced(n, *self, l1, lm, leaves@, pos as int, c1, *key, pre, post);
                        }
                    }
                } else {
                    proof {
                        assert(c1.size_ok(lm));
                        lemma_nonempty(c1, lm);
                    }
                    if exist {
                        let m = ix.children[pos].minimum(leaves);
                        ix.keys.set(pos - 1, m);
                    }
                    proof {
                        lemma_remove_plain(n, *self, l1, lm, pos as int, *key, exist, pre, post);
                    }
                }
            },
        }
    }

    /// Removes a present key from the leaf in slot `a`.
    fn remove_leaf<V>(
        a: usize,
        leaves: &mut Vec<BPLeafNode<FANOUT, K, V>>,
        key: &K,
        Ghost(pre): Ghost<Seq<usize>>,
        Ghost(post): Ghost<Seq<usize>>,
    )
        requires
            BPNode::<FANOUT, K>::Leaf(a).remove_pre(old(leaves)@, *key, pre, post),
        ensures
            BPNode::<FANOUT, K>::Leaf(a).remove_post(
                BPNode::<FANOUT, K>::Leaf(a),
                old(leaves)@,
                final(leaves)@,
                *key,
                pre,
                post,
            ),
    {
        let ghost l1 = leaves@;
        let ghost n = BPNode::<FANOUT, K>::Leaf(a);
        proof {
            lemma_ents_at_single(l1, a);
            let j = choose|j: int| found_at(n.ents_of(l1), *key, j);
            assert(l1[a as int].keys@[j] == *key);
            assert(l1[a as int].keys@.contains(*key));
        }
        leaves[a].delete(key);
        proof {
            let l2 = leaves@;
            lemma_ents_at_single(l2, a);
            let i = choose|i: int|
                0 <= i < l1[a as int].keys@.len() && l1[a as int].keys@[i] == *key
                    && l2[a as int].keys@ == l1[a as int].keys@.remove(i) && l2[a as int].values@
                    == l1[a as int].values@.remove(i);
            assert(l2[a as int].entries() =~= l1[a as int].entries().remove(i));
            assert(found_at(n.ents_of(l1), *key, i));
            assert(n.leaf_ids() == seq![a]);
            let ids = pre + seq![a] + post;
            assert forall|j: int| 0 <= j < ids.len() implies #[trigger] ids[j] < l2.len()
                && l2[ids[j] as int].prev == l1[ids[j] as int].prev && l2[ids[j] as int].next
                == l1[ids[j] as int].next by {
                assert(link_ok(ids, l1, j));
            }
            lemma_chain_same_links(ids, l1, l2);
            assert forall|x: usize|
                x < l1.len() && !n.leaf_ids().contains(x) implies #[trigger] same_leaf(l1, l2, x) by {
                assert(n.leaf_ids()[0] == a);
            }
        }
    }

    /// Inserts an absent key into the leaf in slot `a`.
    fn insert_leaf<V>(
        a: usize,
        leaves: &mut Vec<BPLeafNode<FANOUT, K, V>>,
        key: K,
        value: V,
        Ghost(pre): Ghost<Seq<usize>>,
        Ghost(post): Ghost<Seq<usize>>,
    )
        requires
            BPNode::<FANOUT, K>::Leaf(a).insert_pre(old(leaves)@, key, pre, post),
        ensures
            BPNode::<FANOUT, K>::Leaf(a).insert_post(
                BPNode::<FANOUT, K>::Leaf(a),
                old(leaves)@,
                final(leaves)@,
                key,
                value,
                pre,
                post,
            ),
    {
        let ghost l1 = leaves@;
        let ghost n = BPNode::<FANOUT, K>::Leaf(a);
        proof {
            lemma_ents_at_single(l1, a);
            assert(!l1[a as int].keys@.contains(key)) by {
                if l1[a as int].keys@.contains(key) {
                    let j = choose|j: int|
                        0 <= j < l1[a as int].keys@.len() && l1[a as int].keys@[j] == key;
                    assert(found_at(n.ents_of(l1), key, j));
                }
            }
        }
        leaves[a].insert(key, value);
        proof {
            let l2 = leaves@;
            lemma_ents_at_single(l2, a);
            let p = choose|p: int|
                0 <= p <= l1[a as int].keys@.len() && l2[a as int].keys@ == l1[a as int].keys@.insert(
                    p,
                    key,
                ) && l2[a as int].values@ == l1[a as int].values@.insert(p, value);
            assert(l2[a as int].entries() =~= l1[a as int].entries().insert(p, (key, value)));
            assert(n.ents_of(l2) == n.ents_of(l1).insert(p, (key, value)));
            assert(n.size(l2) == n.size(l1) + 1);
            assert(n.leaf_ids() == seq![a]);
            let ids = pre + seq![a] + post;
            assert forall|j: int| 0 <= j < ids.len() implies #[trigger] ids[j] < l2.len()
                && l2[ids[j] as int].prev == l1[ids[j] as int].prev && l2[ids[j] as int].next
                == l1[ids[j] as int].next by {
                assert(link_ok(ids, l1, j));
            }
            lemma_chain_same_links(ids, l1, l2);
            assert forall|x: usize|
                x < l1.len() && !n.leaf_ids().contains(x) implies #[trigger] same_leaf(l1, l2, x) by {
                assert(n.leaf_ids()[0] == a);
            }
        }
    }

    /// All leaves below this node lie at the same depth: the children of every index
    /// node below it have equal heights.
    pub open spec fn uniform_depth(self) -> bool
        decreases self,
    {
        match self {
            BPNode::Leaf(_) => true,
            BPNode::Index(ix) => forall|i: int|
                0 <= i < ix.children@.len() ==> {
                    &&& (#[trigger] ix.children@[i]).height() == ix.children@[0].height()
                    &&& ix.children@[i].uniform_depth()
                },
        }
    }

    /// Every node below this one (not this one itself) keeps its occupancy bounds.
    pub open spec fn fanout_within<V>(self, leaves: Seq<BPLeafNode<FANOUT, K, V>>) -> bool
        decreases self,
    {
        match self {
            BPNode::Leaf(_) => true,
            BPNode::Index(ix) => forall|i: int|
                0 <= i < ix.children@.len() ==> {
                    &&& (#[trigger] ix.children@[i]).size_ok(leaves)
                    &&& ix.children@[i].fanout_within(leaves)
                },
        }
    }

    /// Every separator of every index node at or below this one is the least key
    /// of the subtree right of it.
    pub open spec fn separators_are_minima<V>(self, leaves: Seq<BPLeafNode<FANOUT, K, V>>) -> bool
        decreases self,
    {
        match self {
            BPNode::Leaf(_) => true,
            BPNode::Index(ix) => {
                &&& forall|i: int|
                    0 <= i < ix.keys@.len() ==> #[trigger] ix.keys@[i] == ix.children@[i
                        + 1].ents_of(leaves)[0].0
                &&& forall|i: int|
                    0 <= i < ix.children@.len() ==> (
                    #[trigger] ix.children@[i]).separators_are_minima(leaves)
            },
        }
    }

    /// A well formed subtree has uniform depth, keeps the occupancy bounds below its
    /// root, and its separators are the minima to their right.
    pub proof fn lemma_inv_laws<V>(self, leaves: Seq<BPLeafNode<FANOUT, K, V>>)
        requires
            self.inv(leaves),
        ensures
            self.uniform_depth(),
            self.fanout_within(leaves),
            self.separators_are_minima(leaves),
        decreases self,
    {
        if let BPNode::Index(ix) = self {
            assert forall|i: int| 0 <= i < ix.children@.len() implies {
                &&& (#[trigger] ix.children@[i]).uniform_depth()
                &&& ix.children@[i].fanout_within(leaves)
                &&& ix.children@[i].separators_are_minima(leaves)
            } by {
                ix.children@[i].lemma_inv_laws(leaves);
            }
        }
    }

    /// A leaf holding `FANOUT` keys, or an index node holding `FANOUT` separators:
    /// the state in which a node is split.
    pub open spec fn full<V>(self, leaves: Seq<BPLeafNode<FANOUT, K, V>>) -> bool {
        match self {
            BPNode::Leaf(id) => leaves[id as int].keys@.len() == FANOUT,
            BPNode::Index(ix) => ix.keys@.len() == FANOUT,
        }
    }

    /// Fewer than `FANOUT` keys, or fewer than `FANOUT` separators.
    pub open spec fn below_full<V>(self, leaves: Seq<BPLeafNode<FANOUT, K, V>>) -> bool {
        match self {
            BPNode::Leaf(id) => leaves[id as int].keys@.len() < FANOUT,
            BPNode::Index(ix) => ix.keys@.len() < FANOUT,
        }
    }

    /// What splitting this full node gives: `left` and `right`, well formed, within
    /// their bounds and of its height, holding its entries between them, `sep` the
    /// least key of `right`; a leaf's new half in the next free slot of the arena,
    /// linked into the chain right after it; other leaves' entries kept. A leaf keeps
    /// its first `FANOUT / 2` entries; an index node keeps its first `FANOUT / 2`
    /// separators, the next one is promoted, and the rest go right.
    pub open spec fn split_post<V>(
        self,
        left: Self,
        right: Self,
        sep: K,
        l1: Seq<BPLeafNode<FANOUT, K, V>>,
        l2: Seq<BPLeafNode<FANOUT, K, V>>,
        pre: Seq<usize>,
        post: Seq<usize>,
    ) -> bool {
        &&& left.inv(l2)
        &&& right.inv(l2)
        &&& left.size_ok(l2)
        &&& right.size_ok(l2)
        &&& left.height() == self.height()
        &&& right.height() == self.height()
        &&& (left is Leaf) == (self is Leaf)
        &&& left.ents_of(l2) + right.ents_of(l2) == self.ents_of(l1)
        &&& right.ents_of(l2).len() > 0
        &&& sep == right.ents_of(l2)[0].0
        &&& l2.len() == l1.len() + (if self is Leaf {
            1int
        } else {
            0
        })
        &&& left.leaf_ids() + right.leaf_ids() == self.leaf_ids() + (if self is Leaf {
            seq![l1.len() as usize]
        } else {
            Seq::empty()
        })
        &&& chain_ok(pre + left.leaf_ids() + right.leaf_ids() + post, l2)
        &&& (pre + left.leaf_ids() + right.leaf_ids() + post).no_duplicates()
        &&& forall|id: usize|
            id < l1.len() && !self.leaf_ids().contains(id) ==> #[trigger] same_leaf(l1, l2, id)
        &&& self is Leaf ==> {
            &&& left == self
            &&& right == BPNode::<FANOUT, K>::Leaf(l1.len() as usize)
            &&& l2[self->Leaf_0 as int].keys@ == l1[self->Leaf_0 as int].keys@.take(
                (FANOUT / 2) as int,
            )
            &&& l2[l1.len() as int].keys@ == l1[self->Leaf_0 as int].keys@.skip((FANOUT / 2) as int)
        }
        &&& self is Index ==> {
            &&& left is Index
            &&& right is Index
            &&& left->Index_0.keys@ == self->Index_0.keys@.take((FANOUT / 2) as int)
            &&& left->Index_0.children@ == self->Index_0.children@.take((FANOUT / 2 + 1) as int)
            &&& sep == self->Index_0.keys@[(FANOUT / 2) as int]
            &&& right->Index_0.keys@ == self->Index_0.keys@.skip((FANOUT / 2 + 1) as int)
            &&& right->Index_0.children@ == self->Index_0.children@.skip((FANOUT / 2 + 1) as int)
        }
    }

    /// What a removal below this node asks: the subtree well formed, an index node
    /// with two children at least, its leaves part of a chain `pre`, its own, `post`.
    pub open spec fn remove_ready<V>(
        self,
        leaves: Seq<BPLeafNode<FANOUT, K, V>>,
        pre: Seq<usize>,
        post: Seq<usize>,
    ) -> bool {
        &&& 3 <= FANOUT < usize::MAX
        &&& self.inv(leaves)
        &&& self is Index ==> self.size(leaves) >= 2
        &&& chain_ok(pre + self.leaf_ids() + post, leaves)
        &&& (pre + self.leaf_ids() + post).no_duplicates()
    }

    /// `remove_ready`, with `key` present below this node.
    pub open spec fn remove_pre<V>(
        self,
        leaves: Seq<BPLeafNode<FANOUT, K, V>>,
        key: K,
        pre: Seq<usize>,
        post: Seq<usize>,
    ) -> bool {
        &&& self.remove_ready(leaves, pre, post)
        &&& exists|j: int| found_at(self.ents_of(leaves), key, j)
    }

    /// What a removal below this node gives: `n2`, well formed, of the same height
    /// and kind, smaller by one at most, holding the entries of this node but the one
    /// for `key`; no new leaf; other leaves' entries kept; the chain intact.
    pub open spec fn remove_post<V>(
        self,
        n2: Self,
        l1: Seq<BPLeafNode<FANOUT, K, V>>,
        l2: Seq<BPLeafNode<FANOUT, K, V>>,
        key: K,
        pre: Seq<usize>,
        post: Seq<usize>,
    ) -> bool {
        &&& n2.inv(l2)
        &&& n2.height() == self.height()
        &&& (n2 is Leaf) == (self is Leaf)
        &&& n2.size(l2) <= self.size(l1)
        &&& n2.size(l2) + 1 >= self.size(l1)
        &&& exists|q: int|
            found_at(self.ents_of(l1), key, q) && n2.ents_of(l2) == self.ents_of(l1).remove(q)
        &&& l2.len() == l1.len()
        &&& forall|id: usize| #[trigger] n2.leaf_ids().contains(id) ==> self.leaf_ids().contains(id)
        &&& forall|id: usize|
            id < l1.len() && !self.leaf_ids().contains(id) ==> #[trigger] same_leaf(l1, l2, id)
        &&& chain_ok(pre + n2.leaf_ids() + post, l2)
        &&& (pre + n2.leaf_ids() + post).no_duplicates()
    }

    pub fn is_empty<V>(&self, leaves: &Vec<BPLeafNode<FANOUT, K, V>>) -> (r: bool)
        requires
            self.inv(leaves@),
        ensures
            r == match *self {
                BPNode::Leaf(id) => leaves@[id as int].keys@.len() == 0,
                BPNode::Index(ix) => ix.keys@.len() == 0,
            },
    {
        match self {
            BPNode::Leaf(id) => leaves[*id].is_empty(),
            BPNode::Index(ix) => ix.is_empty(),
        }
    }

    /// Below its least occupancy: fewer than `FANOUT / 2` keys, or fewer than
    /// `(FANOUT + 1) / 2` children.
    pub fn is_underflow<V>(&self, leaves: &Vec<BPLeafNode<FANOUT, K, V>>) -> (r: bool)
        requires
            self.inv(leaves@),
            FANOUT < usize::MAX,
        ensures
            r == match *self {
                BPNode::Leaf(_) => self.size(leaves@) < leaf_min(FANOUT as int),
                BPNode::Index(_) => self.size(leaves@) < index_min(FANOUT as int),
            },
    {
        match self {
            BPNode::Leaf(id) => leaves[*id].is_underflow(),
            BPNode::Index(ix) => ix.is_underflow(),
        }
    }

    /// At its least occupancy exactly.
    pub fn is_minimum<V>(&self, leaves: &Vec<BPLeafNode<FANOUT, K, V>>) -> (r: bool)
        requires
            self.inv(leaves@),
            FANOUT < usize::MAX,
        ensures
            r == match *self {
                BPNode::Leaf(_) => self.size(leaves@) == leaf_min(FANOUT as int),
                BPNode::Index(_) => self.size(leaves@) == index_min(FANOUT as int),
            },
    {
        match self {
            BPNode::Leaf(id) => leaves[*id].is_minimum(),
            BPNode::Index(ix) => ix.is_minimum(),
        }
    }

    pub fn is_full<V>(&self, leaves: &Vec<BPLeafNode<FANOUT, K, V>>) -> (r: bool)
        requires
            self.inv(leaves@),
        ensures
            r == self.full(leaves@),
    {
        match self {
            BPNode::Leaf(id) => leaves[*id].is_full(),
            BPNode::Index(ix) => ix.is_full(),
        }
    }

    /// Splits a full node in two: this node keeps the lower part and the returned
    /// node holds the upper part, whose least key is returned with it. A new leaf
    /// takes the next free slot of the arena and is linked into the chain.
    pub fn split_node<V>(
        &mut self,
        leaves: &mut Vec<BPLeafNode<FANOUT, K, V>>,
        Ghost(pre): Ghost<Seq<usize>>,
        Ghost(post): Ghost<Seq<usize>>,
    ) -> (r: (K, BPNode<FANOUT, K>))
        requires
            3 <= FANOUT < usize::MAX,
            old(self).inv(old(leaves)@),
            old(self).full(old(leaves)@),
            chain_ok(pre + old(self).leaf_ids() + post, old(leaves)@),
            (pre + old(self).leaf_ids() + post).no_duplicates(),
            old(leaves)@.len() < usize::MAX,
        ensures
            old(self).split_post(
                *final(self),
                r.1,
                r.0,
                old(leaves)@,
                final(leaves)@,
                pre,
                post,
            ),
    {
        match self {
            BPNode::Leaf(id) => {
                let a = *id;
                let (split_key, b) = BPLeafNode::split_leaf_node(leaves, a, Ghost(pre), Ghost(post));
                let r = (split_key, BPNode::Leaf(b));
                proof {
                    let b = old(leaves)@.len() as usize;
                    lemma_ents_at_single(leaves@, a);
                    lemma_ents_at_single(leaves@, b);
                    lemma_ents_at_single(old(leaves)@, a);
                    assert(BPNode::<FANOUT, K>::Leaf(a).leaf_ids() == seq![a]);
                    assert(BPNode::<FANOUT, K>::Leaf(b).leaf_ids() == seq![b]);
                    assert(pre + seq![a] + seq![b] + post =~= pre + seq![a, b] + post);
                    assert forall|id: usize|
                        id < old(leaves)@.len() && !old(self).leaf_ids().contains(id) implies #[trigger] same_leaf(
                        old(leaves)@,
                        leaves@,
                        id,
                    ) by {
                        assert(seq![a][0] == a);
                    }
                }
                r
            },
            BPNode::Index(ix) => {
                let ghost old_ix = *ix;
                let (split_key, right) = ix.split_node();
                proof {
                    lemma_split_index(old_ix, *ix, right, split_key, old(leaves)@);
                    let n = BPNode::<FANOUT, K>::Index(old_ix);
                    let left_n = BPNode::<FANOUT, K>::Index(*ix);
                    let right_n = BPNode::<FANOUT, K>::Index(right);
                    assert(pre + left_n.leaf_ids() + right_n.leaf_ids() + post =~= pre + n.leaf_ids() + post);
                    assert(n.leaf_ids() + Seq::<usize>::empty() =~= n.leaf_ids());
                }
                (split_key, BPNode::Index(right))
            },
        }
    }

}

/// Splitting a full, well formed index node at `FANOUT / 2` gives two well formed
/// nodes within their bounds whose entries make up the old ones, the right one
/// starting at the promoted separator.
proof fn lemma_split_index<const FANOUT: usize, K: BPKey, V>(
    old_ix: BPIndexNode<FANOUT, K>,
    ix: BPIndexNode<FANOUT, K>,
    right: BPIndexNode<FANOUT, K>,
    split_key: K,
    l1: Seq<BPLeafNode<FANOUT, K, V>>,
)
    requires
        3 <= FANOUT < usize::MAX,
        BPNode::<FANOUT, K>::Index(old_ix).inv(l1),
        old_ix.keys@.len() == FANOUT,
        split_key == old_ix.keys@[(FANOUT / 2) as int],
        ix.keys@ == old_ix.keys@.take((FANOUT / 2) as int),
        ix.children@ == old_ix.children@.take((FANOUT / 2 + 1) as int),
        right.keys@ == old_ix.keys@.skip((FANOUT / 2 + 1) as int),
        right.children@ == old_ix.children@.skip((FANOUT / 2 + 1) as int),
    ensures
        BPNode::<FANOUT, K>::Index(ix).inv(l1),
        BPNode::<FANOUT, K>::Index(right).inv(l1),
        BPNode::<FANOUT, K>::Index(ix).size_ok(l1),
        BPNode::<FANOUT, K>::Index(right).size_ok(l1),
        BPNode::<FANOUT, K>::Index(ix).height() == BPNode::<FANOUT, K>::Index(old_ix).height(),
        BPNode::<FANOUT, K>::Index(right).height() == BPNode::<FANOUT, K>::Index(old_ix).height(),
        BPNode::<FANOUT, K>::Index(ix).ents_of(l1) + BPNode::<FANOUT, K>::Index(right).ents_of(l1)
            == BPNode::<FANOUT, K>::Index(old_ix).ents_of(l1),
        BPNode::<FANOUT, K>::Index(ix).leaf_ids() + BPNode::<FANOUT, K>::Index(right).leaf_ids()
            == BPNode::<FANOUT, K>::Index(old_ix).leaf_ids(),
        BPNode::<FANOUT, K>::Index(right).ents_of(l1).len() > 0,
        split_key == BPNode::<FANOUT, K>::Index(right).ents_of(l1)[0].0,
{
    let n = BPNode::<FANOUT, K>::Index(old_ix);
                    let cs = old_ix.children@;
                    let m = (FANOUT / 2) as int;
                    let left_n = BPNode::<FANOUT, K>::Index(ix);
                    let right_n = BPNode::<FANOUT, K>::Index(right);
                    assert(cs =~= cs.take(m + 1) + cs.skip(m + 1));
                    lemma_ids_of_concat(cs.take(m + 1), cs.skip(m + 1));
                    lemma_ents_at_concat(l1, ids_of(cs.take(m + 1)), ids_of(cs.skip(m + 1)));
                    lemma_inv_sorted(n, l1);
                    let es = n.ents_of(l1);
                    let e1 = left_n.ents_of(l1);
                    let e2 = right_n.ents_of(l1);
                    assert(e1 =~= es.subrange(0, e1.len() as int));
                    assert(e2 =~= es.subrange(e1.len() as int, es.len() as int));
                    lemma_ents_sorted_subrange(es, 0, e1.len() as int);
                    lemma_ents_sorted_subrange(es, e1.len() as int, es.len() as int);
                    assert forall|i: int| 0 <= i < ix.keys@.len() implies #[trigger] ix.keys@[i]
                        == ix.children@[i + 1].ents_of(l1)[0].0 by {
                        assert(ix.children@[i + 1] == cs[i + 1]);
                    }
                    assert forall|i: int| 0 <= i < right.keys@.len() implies #[trigger] right.keys@[i]
                        == right.children@[i + 1].ents_of(l1)[0].0 by {
                        assert(right.children@[i + 1] == cs[i + m + 2]);
                        assert(right.keys@[i] == old_ix.keys@[i + m + 1]);
                    }
                    assert forall|i: int| 0 <= i < ix.children@.len() implies {
                        &&& (#[trigger] ix.children@[i]).inv(l1)
                        &&& ix.children@[i].size_ok(l1)
                        &&& ix.children@[i].height() == ix.children@[0].height()
                    } by {
                        assert(ix.children@[i] == cs[i]);
                        assert(ix.children@[0] == cs[0]);
                    }
                    assert forall|i: int| 0 <= i < right.children@.len() implies {
                        &&& (#[trigger] right.children@[i]).inv(l1)
                        &&& right.children@[i].size_ok(l1)
                        &&& right.children@[i].height() == right.children@[0].height()
                    } by {
                        assert(right.children@[i] == cs[i + m + 1]);
                        assert(right.children@[0] == cs[m + 1]);
                    }
                    assert(left_n.inv(l1));
                    assert(right_n.inv(l1));
                    lemma_first_child(right_n, l1);
                    assert(right.children@[0] == cs[m + 1]);
                    assert(split_key == old_ix.keys@[m]);
                    assert(ix.children@[0] == cs[0]);
                    assert(right.children@[0] == cs[m + 1]);
}

} // verus!
