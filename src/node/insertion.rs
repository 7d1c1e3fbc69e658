use vstd::prelude::*;

use crate::key::BPKey;
use crate::node::lemmas::{
    lemma_child_ents, lemma_ents_at_concat, lemma_ids_of_concat, lemma_ids_of_single,
    lemma_ids_of_split, lemma_inv_sorted, lemma_offset_mono, offset, same_leaf,
};
use crate::node::reshape::{lemma_contains_concat3, lemma_insert_step, lemma_no_dup_piece};
use crate::node::{BPLeafNode, BPNode, found_at, ids_of};

verus! {

/// The key routed to child `pos` of an index node that does not hold it may be
/// inserted into that child, whose leaves sit between those of its siblings.
pub proof fn lemma_insert_descend<const FANOUT: usize, K: BPKey, V>(
    n: BPNode<FANOUT, K>,
    l1: Seq<BPLeafNode<FANOUT, K, V>>,
    pos: int,
    key: K,
    pre: Seq<usize>,
    post: Seq<usize>,
)
    requires
        n is Index,
        n.insert_pre(l1, key, pre, post),
        0 <= pos <= n->Index_0.keys@.len(),
    ensures
        ({
            let cs = n->Index_0.children@;
            let pre2 = pre + ids_of(cs.take(pos));
            let post2 = ids_of(cs.skip(pos + 1)) + post;
            &&& cs[pos].insert_pre(l1, key, pre2, post2)
            &&& cs[pos].height() < n.height()
            &&& pre + n.leaf_ids() + post == pre2 + cs[pos].leaf_ids() + post2
        }),
{
    let cs = n->Index_0.children@;
    let c = cs[pos];
    let pre2 = pre + ids_of(cs.take(pos));
    let post2 = ids_of(cs.skip(pos + 1)) + post;
    lemma_ids_of_split(cs, pos);
    assert(pre + n.leaf_ids() + post =~= pre2 + c.leaf_ids() + post2);
    assert(c.inv(l1) && c.size_ok(l1));
    lemma_child_ents(n, l1, pos);
    let o = offset(cs, l1, pos);
    if exists|j: int| found_at(c.ents_of(l1), key, j) {
        let j = choose|j: int| found_at(c.ents_of(l1), key, j);
        assert(n.ents_of(l1)[o + j] == c.ents_of(l1)[j]);
        assert(found_at(n.ents_of(l1), key, o + j));
    }
}

/// Insertion at an index node whose child took the key without filling up.
#[verifier::rlimit(80)]
#[verifier::spinoff_prover]
pub proof fn lemma_insert_plain<const FANOUT: usize, K: BPKey, V>(
    n: BPNode<FANOUT, K>,
    n2: BPNode<FANOUT, K>,
    l1: Seq<BPLeafNode<FANOUT, K, V>>,
    lm: Seq<BPLeafNode<FANOUT, K, V>>,
    pos: int,
    key: K,
    value: V,
    pre: Seq<usize>,
    post: Seq<usize>,
)
    requires
        n is Index,
        n.insert_pre(l1, key, pre, post),
        0 <= pos <= n->Index_0.keys@.len(),
        pos > 0 ==> n->Index_0.keys@[pos - 1].rank() < key.rank(),
        pos < n->Index_0.keys@.len() ==> key.rank() < n->Index_0.keys@[pos].rank(),
        n2 is Index,
        n2->Index_0.keys@ == n->Index_0.keys@,
        n2->Index_0.children@ == n->Index_0.children@.update(pos, n2->Index_0.children@[pos]),
        n->Index_0.children@[pos].insert_post(
            n2->Index_0.children@[pos],
            l1,
            lm,
            key,
            value,
            pre + ids_of(n->Index_0.children@.take(pos)),
            ids_of(n->Index_0.children@.skip(pos + 1)) + post,
        ),
        !n2->Index_0.children@[pos].full(lm),
    ensures
        n.insert_post(n2, l1, lm, key, value, pre, post),
{
    let cs = n->Index_0.children@;
    let keys = n->Index_0.keys@;
    let c = cs[pos];
    let c1 = n2->Index_0.children@[pos];
    let pre2 = pre + ids_of(cs.take(pos));
    let post2 = ids_of(cs.skip(pos + 1)) + post;
    let mid = seq![c1];
    lemma_ids_of_split(cs, pos);
    assert(pre + n.leaf_ids() + post =~= pre2 + c.leaf_ids() + post2);
    lemma_no_dup_piece(pre, n.leaf_ids(), post);
    assert(c.size_ok(l1));
    let p = choose|p: int|
        0 <= p <= c.ents_of(l1).len() && c1.ents_of(lm) == c.ents_of(l1).insert(p, (key, value));
    lemma_ids_of_single(c1);
    lemma_inv_sorted(c1, lm);
    assert(n2->Index_0.children@ =~= cs.take(pos) + mid + cs.skip(pos + 1));
    assert(n2->Index_0.keys@ =~= keys.take(pos) + Seq::<K>::empty() + keys.skip(pos));
    lemma_insert_step(n, l1, lm, pos, mid, Seq::empty(), n2, key, value, p);
    lemma_child_ents(n, l1, pos);
    let o = offset(cs, l1, pos);
    assert(0 <= o + p <= n.ents_of(l1).len());
    assert(n2.ents_of(lm) == n.ents_of(l1).insert(o + p, (key, value)));
    if pos == 0 {
        assert(n2->Index_0.children@[0] == c1);
    } else {
        assert(n2->Index_0.children@[0] == cs[0]);
    }
    assert(n2.height() == n.height());
    assert(pre + n2.leaf_ids() + post =~= pre2 + c1.leaf_ids() + post2);
    assert forall|x: usize| x < l1.len() && #[trigger] n2.leaf_ids().contains(x) implies n.leaf_ids().contains(
        x,
    ) by {
        lemma_contains_concat3(ids_of(cs.take(pos)), ids_of(mid), ids_of(cs.skip(pos + 1)), x);
        lemma_contains_concat3(ids_of(cs.take(pos)), c.leaf_ids(), ids_of(cs.skip(pos + 1)), x);
    }
    assert forall|x: usize| x < l1.len() && !n.leaf_ids().contains(x) implies #[trigger] same_leaf(
        l1,
        lm,
        x,
    ) by {
        lemma_contains_concat3(ids_of(cs.take(pos)), c.leaf_ids(), ids_of(cs.skip(pos + 1)), x);
    }
}

/// Insertion at an index node whose child filled up and was split in two.
#[verifier::rlimit(80)]
#[verifier::spinoff_prover]
pub proof fn lemma_insert_split<const FANOUT: usize, K: BPKey, V>(
    n: BPNode<FANOUT, K>,
    n2: BPNode<FANOUT, K>,
    l1: Seq<BPLeafNode<FANOUT, K, V>>,
    lm: Seq<BPLeafNode<FANOUT, K, V>>,
    l2: Seq<BPLeafNode<FANOUT, K, V>>,
    pos: int,
    c1: BPNode<FANOUT, K>,
    left: BPNode<FANOUT, K>,
    right: BPNode<FANOUT, K>,
    sep: K,
    key: K,
    value: V,
    pre: Seq<usize>,
    post: Seq<usize>,
)
    requires
        n is Index,
        n.insert_pre(l1, key, pre, post),
        0 <= pos <= n->Index_0.keys@.len(),
        pos > 0 ==> n->Index_0.keys@[pos - 1].rank() < key.rank(),
        pos < n->Index_0.keys@.len() ==> key.rank() < n->Index_0.keys@[pos].rank(),
        n->Index_0.children@[pos].insert_post(
            c1,
            l1,
            lm,
            key,
            value,
            pre + ids_of(n->Index_0.children@.take(pos)),
            ids_of(n->Index_0.children@.skip(pos + 1)) + post,
        ),
        c1.full(lm),
        c1.split_post(
            left,
            right,
            sep,
            lm,
            l2,
            pre + ids_of(n->Index_0.children@.take(pos)),
            ids_of(n->Index_0.children@.skip(pos + 1)) + post,
        ),
        n2 is Index,
        n2->Index_0.keys@ == n->Index_0.keys@.insert(pos, sep),
        n2->Index_0.children@ == n->Index_0.children@.update(pos, left).insert(pos + 1, right),
    ensures
        n.insert_post(n2, l1, l2, key, value, pre, post),
{
    let cs = n->Index_0.children@;
    let keys = n->Index_0.keys@;
    let c = cs[pos];
    let pre2 = pre + ids_of(cs.take(pos));
    let post2 = ids_of(cs.skip(pos + 1)) + post;
    let mid = seq![left, right];
    lemma_ids_of_split(cs, pos);
    assert(pre + n.leaf_ids() + post =~= pre2 + c.leaf_ids() + post2);
    lemma_no_dup_piece(pre, n.leaf_ids(), post);
    assert(c.size_ok(l1));
    let p = choose|p: int|
        0 <= p <= c.ents_of(l1).len() && c1.ents_of(lm) == c.ents_of(l1).insert(p, (key, value));
    lemma_ids_of_single(left);
    lemma_ids_of_single(right);
    lemma_ids_of_concat(seq![left], seq![right]);
    assert(seq![left] + seq![right] =~= mid);
    lemma_ents_at_concat(l2, left.leaf_ids(), right.leaf_ids());
    lemma_inv_sorted(c1, lm);
    assert forall|x: usize| x < l1.len() && !c.leaf_ids().contains(x) implies #[trigger] same_leaf(
        l1,
        l2,
        x,
    ) by {
        assert(same_leaf(l1, lm, x));
        assert(!c1.leaf_ids().contains(x));
        assert(same_leaf(lm, l2, x));
    }
    assert(n2->Index_0.children@ =~= cs.take(pos) + mid + cs.skip(pos + 1));
    assert(n2->Index_0.keys@ =~= keys.take(pos) + seq![sep] + keys.skip(pos));
    lemma_insert_step(n, l1, l2, pos, mid, seq![sep], n2, key, value, p);
    lemma_child_ents(n, l1, pos);
    let o = offset(cs, l1, pos);
    assert(0 <= o + p <= n.ents_of(l1).len());
    assert(n2.ents_of(l2) == n.ents_of(l1).insert(o + p, (key, value)));
    if pos == 0 {
        assert(n2->Index_0.children@[0] == left);
    } else {
        assert(n2->Index_0.children@[0] == cs[0]);
    }
    assert(n2.height() == n.height());
    assert(l2.len() == l1.len() || l2.len() == l1.len() + 1);
    assert(pre + n2.leaf_ids() + post =~= pre2 + left.leaf_ids() + right.leaf_ids() + post2);
    assert forall|x: usize| x < l1.len() && #[trigger] n2.leaf_ids().contains(x) implies n.leaf_ids().contains(
        x,
    ) by {
        lemma_contains_concat3(ids_of(cs.take(pos)), ids_of(mid), ids_of(cs.skip(pos + 1)), x);
        lemma_contains_concat3(ids_of(cs.take(pos)), c.leaf_ids(), ids_of(cs.skip(pos + 1)), x);
        lemma_contains_concat3(Seq::empty(), left.leaf_ids(), right.leaf_ids(), x);
        assert(Seq::<usize>::empty() + left.leaf_ids() + right.leaf_ids() =~= left.leaf_ids()
            + right.leaf_ids());
        lemma_contains_concat3(Seq::empty(), c1.leaf_ids(), seq![lm.len() as usize], x);
        assert(Seq::<usize>::empty() + c1.leaf_ids() + seq![lm.len() as usize] =~= c1.leaf_ids()
            + seq![lm.len() as usize]);
        assert(c1.leaf_ids() + Seq::<usize>::empty() =~= c1.leaf_ids());
    }
    assert forall|x: usize| x < l1.len() && !n.leaf_ids().contains(x) implies #[trigger] same_leaf(
        l1,
        l2,
        x,
    ) by {
        lemma_contains_concat3(ids_of(cs.take(pos)), c.leaf_ids(), ids_of(cs.skip(pos + 1)), x);
    }
}

} // verus!
