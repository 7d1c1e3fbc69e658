use vstd::prelude::*;

use crate::key::BPKey;
use crate::node::lemmas::{
    lemma_chain_merge, lemma_chain_same_links, lemma_ents_at_single, lemma_ents_sorted_subrange,
    lemma_ids_of_single, lemma_nonempty, same_leaf,
};
use crate::node::reshape::{
    lemma_index_add_child, lemma_index_concat, lemma_index_prefix, lemma_index_suffix,
};
use crate::node::{BPIndexNode, BPLeafNode, BPNode, chain_ok, ents_sorted, link_ok};

verus! {

impl<const FANOUT: usize, K: BPKey> BPNode<FANOUT, K> {
    /// This node and `b`, its right neighbour: both well formed, of one height, their
    /// entries ascending across both, their leaves part of the chain `pre`, theirs,
    /// `post`.
    pub open spec fn pair_ok<V>(
        self,
        b: Self,
        l: Seq<BPLeafNode<FANOUT, K, V>>,
        pre: Seq<usize>,
        post: Seq<usize>,
    ) -> bool {
        &&& 3 <= FANOUT < usize::MAX
        &&& self.inv(l)
        &&& b.inv(l)
        &&& self.height() == b.height()
        &&& ents_sorted(self.ents_of(l) + b.ents_of(l))
        &&& chain_ok(pre + self.leaf_ids() + b.leaf_ids() + post, l)
        &&& (pre + self.leaf_ids() + b.leaf_ids() + post).no_duplicates()
    }

    /// The arena keeps its length and every leaf not below this node or `b`.
    pub open spec fn pair_frame<V>(
        self,
        b: Self,
        l1: Seq<BPLeafNode<FANOUT, K, V>>,
        l2: Seq<BPLeafNode<FANOUT, K, V>>,
    ) -> bool {
        &&& l2.len() == l1.len()
        &&& forall|id: usize|
            id < l1.len() && !(self.leaf_ids() + b.leaf_ids()).contains(id) ==> #[trigger] same_leaf(
                l1,
                l2,
                id,
            )
    }

    /// Most keys of a leaf, most children of an index node, between operations.
    pub open spec fn max_size(self) -> int {
        if self is Leaf {
            FANOUT - 1
        } else {
            FANOUT as int
        }
    }

    /// Merges `b`, the right neighbour of this node, into this node. Two leaves: the
    /// entries of `b`'s leaf move over and that leaf leaves the chain. Two index nodes:
    /// the children of `b` follow, after the least key of `b` as their separator.
    pub fn merge_node<V>(
        &mut self,
        b: BPNode<FANOUT, K>,
        leaves: &mut Vec<BPLeafNode<FANOUT, K, V>>,
        Ghost(pre): Ghost<Seq<usize>>,
        Ghost(post): Ghost<Seq<usize>>,
    )
        requires
            old(self).pair_ok(b, old(leaves)@, pre, post),
            old(self).size(old(leaves)@) + b.size(old(leaves)@) <= old(self).max_size(),
        ensures
            final(self).inv(final(leaves)@),
            final(self).height() == old(self).height(),
            final(self).ents_of(final(leaves)@) == old(self).ents_of(old(leaves)@) + b.ents_of(
                old(leaves)@,
            ),
            final(self).size(final(leaves)@) == old(self).size(old(leaves)@) + b.size(old(leaves)@),
            chain_ok(pre + final(self).leaf_ids() + post, final(leaves)@),
            (pre + final(self).leaf_ids() + post).no_duplicates(),
            forall|id: usize| #[trigger]
                final(self).leaf_ids().contains(id) ==> (old(self).leaf_ids()
                    + b.leaf_ids()).contains(id),
            old(self).pair_frame(b, old(leaves)@, final(leaves)@),
            (*old(self)) is Leaf ==> {
                &&& *final(self) == *old(self)
                &&& final(leaves)@[old(self)->Leaf_0 as int].keys@ == old(
                    leaves,
                )@[old(self)->Leaf_0 as int].keys@ + old(leaves)@[b->Leaf_0 as int].keys@
                &&& final(leaves)@[old(self)->Leaf_0 as int].values@ == old(
                    leaves,
                )@[old(self)->Leaf_0 as int].values@ + old(leaves)@[b->Leaf_0 as int].values@
            },
            (*old(self)) is Index ==> {
                &&& (*final(self)) is Index
                &&& final(self)->Index_0.keys@ == old(self)->Index_0.keys@ + seq![
                    b.ents_of(old(leaves)@)[0].0,
                ] + b->Index_0.keys@
                &&& final(self)->Index_0.children@ == old(self)->Index_0.children@
                    + b->Index_0.children@
            },
    {
        let ghost l1 = leaves@;
        let ghost a0 = *old(self);
        match self {
            BPNode::Leaf(xr) => {
                let x = *xr;
                let y = b.as_leaf();
                proof {
                    assert(pre + a0.leaf_ids() + b.leaf_ids() + post =~= pre + seq![x, y] + post);
                }
                BPLeafNode::merge(leaves, x, y, Ghost(pre), Ghost(post));
                proof {
                    let l2 = leaves@;
                    lemma_ents_at_single(l1, x);
                    lemma_ents_at_single(l1, y);
                    lemma_ents_at_single(l2, x);
                    assert(l2[x as int].entries() =~= l1[x as int].entries() + l1[y as int].entries());
                    let e = l2[x as int].entries();
                    assert forall|i: int, j: int|
                        0 <= i < j < l2[x as int].keys@.len() implies (
                        #[trigger] l2[x as int].keys@[i]).rank() < (
                        #[trigger] l2[x as int].keys@[j]).rank() by {
                        assert(e[i].0 == l2[x as int].keys@[i]);
                        assert(e[j].0 == l2[x as int].keys@[j]);
                    }
                    assert(pre + self.leaf_ids() + post =~= pre + seq![x] + post);
                    assert forall|id: usize| #[trigger]
                        self.leaf_ids().contains(id) implies (a0.leaf_ids()
                        + b.leaf_ids()).contains(id) by {
                        assert(self.leaf_ids()[0] == x);
                        assert((a0.leaf_ids() + b.leaf_ids())[0] == x);
                    }
                    assert forall|id: usize|
                        id < l1.len() && !(a0.leaf_ids() + b.leaf_ids()).contains(
                            id,
                        ) implies #[trigger] same_leaf(l1, l2, id) by {
                        assert((a0.leaf_ids() + b.leaf_ids())[0] == x);
                        assert((a0.leaf_ids() + b.leaf_ids())[1] == y);
                    }
                }
            },
            BPNode::Index(ax) => {
                proof {
                    lemma_nonempty(b, l1);
                }
                let sep = b.minimum(leaves);
                let ghost ax0 = *ax;
                match b {
                    BPNode::Index(bx) => {
                        let ghost bx0 = bx;
                        let mut bx = bx;
                        ax.keys.push(sep);
                        ax.keys.append(&mut bx.keys);
                        ax.children.append(&mut bx.children);
                        proof {
                            assert(ax.keys@ =~= ax0.keys@ + seq![sep] + bx0.keys@);
                            lemma_index_concat(ax0, bx0, sep, l1, *ax);
                            assert(pre + self.leaf_ids() + post =~= pre + a0.leaf_ids()
                                + BPNode::<FANOUT, K>::Index(bx0).leaf_ids() + post);
                            assert forall|id: usize| #[trigger]
                                self.leaf_ids().contains(id) implies (a0.leaf_ids()
                                + BPNode::<FANOUT, K>::Index(bx0).leaf_ids()).contains(id) by {
                            }
                        }
                    },
                    BPNode::Leaf(_) => {
                        unreached()
                    },
                }
            },
        }
    }

    /// What moving one entry or child between this node and its right neighbour
    /// `b` keeps: both well formed and of their height, the entries of the two in
    /// order, the leaves below them, the chain, and every other leaf.
    pub open spec fn borrow_post<V>(
        self,
        b: Self,
        a2: Self,
        b2: Self,
        l1: Seq<BPLeafNode<FANOUT, K, V>>,
        l2: Seq<BPLeafNode<FANOUT, K, V>>,
        pre: Seq<usize>,
        post: Seq<usize>,
    ) -> bool {
        &&& a2.inv(l2)
        &&& b2.inv(l2)
        &&& a2.height() == self.height()
        &&& b2.height() == self.height()
        &&& a2.ents_of(l2) + b2.ents_of(l2) == self.ents_of(l1) + b.ents_of(l1)
        &&& a2.leaf_ids() + b2.leaf_ids() == self.leaf_ids() + b.leaf_ids()
        &&& chain_ok(pre + a2.leaf_ids() + b2.leaf_ids() + post, l2)
        &&& (pre + a2.leaf_ids() + b2.leaf_ids() + post).no_duplicates()
        &&& self.pair_frame(b, l1, l2)
        &&& b2.ents_of(l2).len() > 0
    }

    /// Moves the first entry (two leaves) or first child (two index nodes) of `b`,
    /// the right neighbour of this node, to the end of this node. Returns the new
    /// least key of `b`.
    pub fn borrow_from_right<V>(
        &mut self,
        b: &mut BPNode<FANOUT, K>,
        leaves: &mut Vec<BPLeafNode<FANOUT, K, V>>,
        Ghost(pre): Ghost<Seq<usize>>,
        Ghost(post): Ghost<Seq<usize>>,
    ) -> (r: K)
        requires
            old(self).pair_ok(*old(b), old(leaves)@, pre, post),
            old(b).size(old(leaves)@) >= 2,
            old(self).size(old(leaves)@) + 1 <= old(self).max_size(),
        ensures
            old(self).borrow_post(
                *old(b),
                *final(self),
                *final(b),
                old(leaves)@,
                final(leaves)@,
                pre,
                post,
            ),
            final(self).size(final(leaves)@) == old(self).size(old(leaves)@) + 1,
            final(b).size(final(leaves)@) == old(b).size(old(leaves)@) - 1,
            r == final(b).ents_of(final(leaves)@)[0].0,
    {
        let ghost l1 = leaves@;
        let ghost a0 = *old(self);
        let ghost b0 = *old(b);
        match self {
            BPNode::Leaf(xr) => {
                let x = *xr;
                let y = b.as_leaf();
                proof {
                    let t = pre + seq![x, y] + post;
                    assert(pre + a0.leaf_ids() + b0.leaf_ids() + post =~= t);
                    assert(t[pre.len() as int] == x && t[pre.len() + 1int] == y);
                }
                let mut other = BPLeafNode::new();
                std::mem::swap(&mut leaves[y], &mut other);
                leaves[x].steal(&mut other, true);
                std::mem::swap(&mut leaves[y], &mut other);
                let r = leaves[y].keys[0];
                proof {
                    let l2 = leaves@;
                    lemma_ents_at_single(l1, x);
                    lemma_ents_at_single(l1, y);
                    lemma_ents_at_single(l2, x);
                    lemma_ents_at_single(l2, y);
                    let e = l1[x as int].entries() + l1[y as int].entries();
                    assert(l2[x as int].entries() + l2[y as int].entries() =~= e);
                    let ex = l2[x as int].entries();
                    let ey = l2[y as int].entries();
                    assert(ex =~= e.subrange(0, ex.len() as int));
                    assert(ey =~= e.subrange(ex.len() as int, e.len() as int));
                    lemma_ents_sorted_subrange(e, 0, ex.len() as int);
                    lemma_ents_sorted_subrange(e, ex.len() as int, e.len() as int);
                    assert forall|i: int, j: int|
                        0 <= i < j < l2[x as int].keys@.len() implies (
                        #[trigger] l2[x as int].keys@[i]).rank() < (
                        #[trigger] l2[x as int].keys@[j]).rank() by {
                        assert(ex[i].0 == l2[x as int].keys@[i]);
                        assert(ex[j].0 == l2[x as int].keys@[j]);
                    }
                    assert forall|i: int, j: int|
                        0 <= i < j < l2[y as int].keys@.len() implies (
                        #[trigger] l2[y as int].keys@[i]).rank() < (
                        #[trigger] l2[y as int].keys@[j]).rank() by {
                        assert(ey[i].0 == l2[y as int].keys@[i]);
                        assert(ey[j].0 == l2[y as int].keys@[j]);
                    }
                    let ids = pre + a0.leaf_ids() + b0.leaf_ids() + post;
                    assert forall|j: int| 0 <= j < ids.len() implies #[trigger] ids[j] < l2.len()
                        && l2[ids[j] as int].prev == l1[ids[j] as int].prev && l2[ids[j] as int].next
                        == l1[ids[j] as int].next by {
                        assert(link_ok(ids, l1, j));
                    }
                    lemma_chain_same_links(ids, l1, l2);
                    assert forall|id: usize|
                        id < l1.len() && !(a0.leaf_ids() + b0.leaf_ids()).contains(
                            id,
                        ) implies #[trigger] same_leaf(l1, l2, id) by {
                        assert((a0.leaf_ids() + b0.leaf_ids())[0] == x);
                        assert((a0.leaf_ids() + b0.leaf_ids())[1] == y);
                    }
                    {
                        let l2 = leaves@;
                        assert(self.inv(l2));
                        assert(b.inv(l2));
                        assert(self.height() == a0.height());
                        assert(b.height() == a0.height());
                        assert(self.ents_of(l2) + b.ents_of(l2) == a0.ents_of(l1) + b0.ents_of(l1));
                        assert(self.leaf_ids() + b.leaf_ids() == a0.leaf_ids() + b0.leaf_ids());
                        assert(chain_ok(pre + self.leaf_ids() + b.leaf_ids() + post, l2));
                        assert(a0.pair_frame(b0, l1, l2));
                        assert(b.ents_of(l2).len() > 0);
                    }
                }
                r
            },
            BPNode::Index(ax) => {
                let ghost ax0 = *ax;
                match b {
                    BPNode::Index(bx) => {
                        let ghost bx0 = *bx;
                        let g = bx.children.remove(0);
                        let k0 = bx.keys.remove(0);
                        proof {
                            lemma_nonempty(g, l1);
                        }
                        let sep = g.minimum(leaves);
                        ax.keys.push(sep);
                        ax.children.push(g);
                        proof {
                            assert(bx0.children@.take(1) =~= seq![g]);
                            assert(bx.keys@ =~= bx0.keys@.skip(1));
                            assert(bx.children@ =~= bx0.children@.skip(1));
                            lemma_index_suffix(bx0, 1, l1, *bx);
                            lemma_ids_of_single(g);
                            let eb = BPNode::<FANOUT, K>::Index(bx0).ents_of(l1);
                            let ea = a0.ents_of(l1);
                            let eg = g.ents_of(l1);
                            assert(ea + eb =~= (ea + eg) + BPNode::<FANOUT, K>::Index(*bx).ents_of(l1));
                            lemma_ents_sorted_subrange(ea + eb, 0, (ea.len() + eg.len()) as int);
                            assert(ea + eg =~= (ea + eb).subrange(0, (ea.len() + eg.len()) as int));
                            lemma_index_add_child(ax0, g, sep, true, l1, *ax);
                            assert(pre + self.leaf_ids() + b.leaf_ids() + post =~= pre
                                + a0.leaf_ids() + b0.leaf_ids() + post);
                            {
                                let l2 = leaves@;
                                assert(self.inv(l2));
                                assert(b.inv(l2));
                                assert(self.height() == a0.height());
                                assert(b.height() == a0.height());
                                assert(self.ents_of(l2) + b.ents_of(l2) == a0.ents_of(l1) + b0.ents_of(l1));
                                assert(self.leaf_ids() + b.leaf_ids() == a0.leaf_ids() + b0.leaf_ids());
                                assert(chain_ok(pre + self.leaf_ids() + b.leaf_ids() + post, l2));
                                assert(a0.pair_frame(b0, l1, l2));
                                assert(b.ents_of(l2).len() > 0);
                            }
                        }
                        k0
                    },
                    BPNode::Leaf(_) => unreached(),
                }
            },
        }
    }

    /// Moves the last entry (two leaves) or last child (two index nodes) of this
    /// node to the front of `b`, its right neighbour. Returns the new least key of
    /// `b`.
    pub fn borrow_from_left<V>(
        &mut self,
        b: &mut BPNode<FANOUT, K>,
        leaves: &mut Vec<BPLeafNode<FANOUT, K, V>>,
        Ghost(pre): Ghost<Seq<usize>>,
        Ghost(post): Ghost<Seq<usize>>,
    ) -> (r: K)
        requires
            old(self).pair_ok(*old(b), old(leaves)@, pre, post),
            old(self).size(old(leaves)@) >= 2,
            old(b).size(old(leaves)@) + 1 <= old(b).max_size(),
        ensures
            old(self).borrow_post(
                *old(b),
                *final(self),
                *final(b),
                old(leaves)@,
                final(leaves)@,
                pre,
                post,
            ),
            final(self).size(final(leaves)@) == old(self).size(old(leaves)@) - 1,
            final(b).size(final(leaves)@) == old(b).size(old(leaves)@) + 1,
            r == final(b).ents_of(final(leaves)@)[0].0,
    {
        let ghost l1 = leaves@;
        let ghost a0 = *old(self);
        let ghost b0 = *old(b);
        match self {
            BPNode::Leaf(xr) => {
                let x = *xr;
                let y = b.as_leaf();
                proof {
                    let t = pre + seq![x, y] + post;
                    assert(pre + a0.leaf_ids() + b0.leaf_ids() + post =~= t);
                    assert(t[pre.len() as int] == x && t[pre.len() + 1int] == y);
                }
                let mut other = BPLeafNode::new();
                std::mem::swap(&mut leaves[x], &mut other);
                leaves[y].steal(&mut other, false);
                std::mem::swap(&mut leaves[x], &mut other);
                let r = leaves[y].keys[0];
                proof {
                    let l2 = leaves@;
                    lemma_ents_at_single(l1, x);
                    lemma_ents_at_single(l1, y);
                    lemma_ents_at_single(l2, x);
                    lemma_ents_at_single(l2, y);
                    let e = l1[x as int].entries() + l1[y as int].entries();
                    assert(l2[x as int].entries() + l2[y as int].entries() =~= e);
                    let ex = l2[x as int].entries();
                    let ey = l2[y as int].entries();
                    assert(ex =~= e.subrange(0, ex.len() as int));
                    assert(ey =~= e.subrange(ex.len() as int, e.len() as int));
                    lemma_ents_sorted_subrange(e, 0, ex.len() as int);
                    lemma_ents_sorted_subrange(e, ex.len() as int, e.len() as int);
                    assert forall|i: int, j: int|
                        0 <= i < j < l2[x as int].keys@.len() implies (
                        #[trigger] l2[x as int].keys@[i]).rank() < (
                        #[trigger] l2[x as int].keys@[j]).rank() by {
                        assert(ex[i].0 == l2[x as int].keys@[i]);
                        assert(ex[j].0 == l2[x as int].keys@[j]);
                    }
                    assert forall|i: int, j: int|
                        0 <= i < j < l2[y as int].keys@.len() implies (
                        #[trigger] l2[y as int].keys@[i]).rank() < (
                        #[trigger] l2[y as int].keys@[j]).rank() by {
                        assert(ey[i].0 == l2[y as int].keys@[i]);
                        assert(ey[j].0 == l2[y as int].keys@[j]);
                    }
                    let ids = pre + a0.leaf_ids() + b0.leaf_ids() + post;
                    assert forall|j: int| 0 <= j < ids.len() implies #[trigger] ids[j] < l2.len()
                        && l2[ids[j] as int].prev == l1[ids[j] as int].prev && l2[ids[j] as int].next
                        == l1[ids[j] as int].next by {
                        assert(link_ok(ids, l1, j));
                    }
                    lemma_chain_same_links(ids, l1, l2);
                    assert forall|id: usize|
                        id < l1.len() && !(a0.leaf_ids() + b0.leaf_ids()).contains(
                            id,
                        ) implies #[trigger] same_leaf(l1, l2, id) by {
                        assert((a0.leaf_ids() + b0.leaf_ids())[0] == x);
                        assert((a0.leaf_ids() + b0.leaf_ids())[1] == y);
                    }
                    {
                        let l2 = leaves@;
                        assert(self.inv(l2));
                        assert(b.inv(l2));
                        assert(self.height() == a0.height());
                        assert(b.height() == a0.height());
                        assert(self.ents_of(l2) + b.ents_of(l2) == a0.ents_of(l1) + b0.ents_of(l1));
                        assert(self.leaf_ids() + b.leaf_ids() == a0.leaf_ids() + b0.leaf_ids());
                        assert(chain_ok(pre + self.leaf_ids() + b.leaf_ids() + post, l2));
                        assert(a0.pair_frame(b0, l1, l2));
                        assert(b.ents_of(l2).len() > 0);
                    }
                }
                r
            },
            BPNode::Index(ax) => {
                let ghost ax0 = *ax;
                proof {
                    lemma_nonempty(b0, l1);
                }
                let sep = b.minimum(leaves);
                match b {
                    BPNode::Index(bx) => {
                        let ghost bx0 = *bx;
                        let g = ax.children.pop().unwrap();
                        let klast = ax.keys.pop().unwrap();
                        bx.keys.insert(0, sep);
                        bx.children.insert(0, g);
                        proof {
                            let k = ax0.children@.len() - 1;
                            assert(ax.keys@ =~= ax0.keys@.take(k - 1));
                            assert(ax.children@ =~= ax0.children@.take(k));
                            assert(ax0.children@.skip(k) =~= seq![g]);
                            lemma_index_prefix(ax0, k, l1, *ax);
                            lemma_ids_of_single(g);
                            let ea = BPNode::<FANOUT, K>::Index(*ax).ents_of(l1);
                            let eb = b0.ents_of(l1);
                            let eg = g.ents_of(l1);
                            let all = a0.ents_of(l1) + eb;
                            assert(all =~= ea + (eg + eb));
                            assert(eg + eb =~= all.subrange(ea.len() as int, all.len() as int));
                            lemma_ents_sorted_subrange(all, ea.len() as int, all.len() as int);
                            assert(bx.keys@ =~= seq![sep] + bx0.keys@);
                            assert(bx.children@ =~= seq![g] + bx0.children@);
                            lemma_index_add_child(bx0, g, sep, false, l1, *bx);
                            assert(pre + self.leaf_ids() + b.leaf_ids() + post =~= pre
                                + a0.leaf_ids() + b0.leaf_ids() + post);
                            assert(self.leaf_ids() + b.leaf_ids() =~= a0.leaf_ids() + b0.leaf_ids());
                            assert(self.ents_of(l1) + b.ents_of(l1) =~= a0.ents_of(l1) + b0.ents_of(l1));
                        {
                            let l2 = leaves@;
                            assert(self.inv(l2));
                            assert(b.inv(l2));
                            assert(self.height() == a0.height());
                            assert(b.height() == a0.height());
                            assert(self.ents_of(l2) + b.ents_of(l2) == a0.ents_of(l1) + b0.ents_of(l1));
                            assert(self.leaf_ids() + b.leaf_ids() == a0.leaf_ids() + b0.leaf_ids());
                            assert(chain_ok(pre + self.leaf_ids() + b.leaf_ids() + post, l2));
                            assert(a0.pair_frame(b0, l1, l2));
                            assert(b.ents_of(l2).len() > 0);
                        }
                        }
                        klast
                    },
                    BPNode::Leaf(_) => unreached(),
                }
            },
        }
    }
}

} // verus!
