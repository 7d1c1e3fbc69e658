use vstd::prelude::*;

use crate::key::BPKey;
use crate::node::lemmas::{
    lemma_ents_split, lemma_child_ents, lemma_ents_at_concat, lemma_ids_of_concat, lemma_ids_of_single,
    lemma_ids_of_split, lemma_inv_sorted, lemma_nonempty, lemma_route, offset, same_leaf,
};
use crate::node::reshape::{
    lemma_contains_concat3, lemma_ents_sorted_remove, lemma_no_dup_piece, lemma_remove_step,
    lemma_siblings_frame, replaced_keys,
};
use crate::node::{BPLeafNode, BPNode, ents_at, found_at, ids_of, index_min, leaf_min};

verus! {

/// The two neighbouring children of an index node taken together where the child
/// at `pos` underflows: it and its left neighbour, or, for the first child, it and
/// its right neighbour. Gives the position of the left one of the two.
pub open spec fn pair_start(pos: int) -> int {
    if pos > 0 {
        pos - 1
    } else {
        0
    }
}

/// A key present below an index node and routed to child `pos` is present below
/// that child, which may be asked to remove it.
pub proof fn lemma_remove_descend<const FANOUT: usize, K: BPKey, V>(
    n: BPNode<FANOUT, K>,
    l1: Seq<BPLeafNode<FANOUT, K, V>>,
    pos: int,
    key: K,
    pre: Seq<usize>,
    post: Seq<usize>,
)
    requires
        n is Index,
        n.remove_pre(l1, key, pre, post),
        0 <= pos <= n->Index_0.keys@.len(),
        pos > 0 ==> n->Index_0.keys@[pos - 1].rank() <= key.rank(),
        pos < n->Index_0.keys@.len() ==> key.rank() < n->Index_0.keys@[pos].rank(),
    ensures
        ({
            let cs = n->Index_0.children@;
            let pre2 = pre + ids_of(cs.take(pos));
            let post2 = ids_of(cs.skip(pos + 1)) + post;
            &&& cs[pos].remove_pre(l1, key, pre2, post2)
            &&& cs[pos].height() < n.height()
            &&& pre + n.leaf_ids() + post == pre2 + cs[pos].leaf_ids() + post2
        }),
{
    let cs = n->Index_0.children@;
    let c = cs[pos];
    let pre2 = pre + ids_of(cs.take(pos));
    let post2 = ids_of(cs.skip(pos + 1)) + post;
    lemma_ids_of_split(cs, pos);
    assert(pre + n.leaf_ids() + post =~= pre2 + c.leaf_ids() + post2);
    assert(c.inv(l1) && c.size_ok(l1));
    lemma_child_ents(n, l1, pos);
    lemma_route(n, l1, key, pos);
    let o = offset(cs, l1, pos);
    let j = choose|j: int| found_at(n.ents_of(l1), key, j);
    assert(n.ents_of(l1)[j].0.rank() == key.rank());
    assert(c.ents_of(l1)[j - o] == n.ents_of(l1)[j]);
    assert(found_at(c.ents_of(l1), key, j - o));
}

/// Removing one entry of an ascending run keeps its least key, unless it was that
/// one; the new least key is no smaller.
pub proof fn lemma_first_after_remove<K: BPKey, V>(ce: Seq<(K, V)>, q: int)
    requires
        crate::node::ents_sorted(ce),
        0 <= q < ce.len(),
        ce.len() >= 2,
    ensures
        ce.remove(q)[0].0.rank() >= ce[0].0.rank(),
        q != 0 ==> ce.remove(q)[0] == ce[0],
{
    if q == 0 {
        assert(ce[1].0.rank() > ce[0].0.rank());
        assert(ce.remove(q)[0] == ce[1]);
    } else {
        assert(ce.remove(q)[0] == ce[0]);
    }
}

/// Which leaves a removal step at an index node names and keeps, from what the
/// replaced run names and keeps.
pub proof fn lemma_remove_ids<const FANOUT: usize, K: BPKey, V>(
    n: BPNode<FANOUT, K>,
    n2: BPNode<FANOUT, K>,
    l1: Seq<BPLeafNode<FANOUT, K, V>>,
    l2: Seq<BPLeafNode<FANOUT, K, V>>,
    x: Seq<usize>,
    run: Seq<usize>,
    mid: Seq<usize>,
    z: Seq<usize>,
)
    requires
        n.leaf_ids() == x + run + z,
        n2.leaf_ids() == x + mid + z,
        forall|id: usize| #[trigger] mid.contains(id) ==> run.contains(id),
        forall|id: usize| id < l1.len() && !run.contains(id) ==> #[trigger] same_leaf(l1, l2, id),
    ensures
        forall|id: usize| #[trigger] n2.leaf_ids().contains(id) ==> n.leaf_ids().contains(id),
        forall|id: usize|
            id < l1.len() && !n.leaf_ids().contains(id) ==> #[trigger] same_leaf(l1, l2, id),
{
    assert forall|id: usize| #[trigger] n2.leaf_ids().contains(id) implies n.leaf_ids().contains(id) by {
        lemma_contains_concat3(x, mid, z, id);
        lemma_contains_concat3(x, run, z, id);
    }
    assert forall|id: usize| id < l1.len() && !n.leaf_ids().contains(id) implies #[trigger] same_leaf(
        l1,
        l2,
        id,
    ) by {
        lemma_contains_concat3(x, run, z, id);
    }
}

/// Removal at an index node whose child kept its least occupancy; where the key
/// was the separator left of the child, that separator became the child's new
/// least key.
#[verifier::rlimit(80)]
#[verifier::spinoff_prover]
pub proof fn lemma_remove_plain<const FANOUT: usize, K: BPKey, V>(
    n: BPNode<FANOUT, K>,
    n2: BPNode<FANOUT, K>,
    l1: Seq<BPLeafNode<FANOUT, K, V>>,
    lm: Seq<BPLeafNode<FANOUT, K, V>>,
    pos: int,
    key: K,
    exist: bool,
    pre: Seq<usize>,
    post: Seq<usize>,
)
    requires
        n is Index,
        n.remove_pre(l1, key, pre, post),
        0 <= pos <= n->Index_0.keys@.len(),
        pos > 0 ==> n->Index_0.keys@[pos - 1].rank() <= key.rank(),
        pos < n->Index_0.keys@.len() ==> key.rank() < n->Index_0.keys@[pos].rank(),
        exist == (pos > 0 && n->Index_0.keys@[pos - 1] == key),
        n2 is Index,
        n2->Index_0.children@ == n->Index_0.children@.update(pos, n2->Index_0.children@[pos]),
        n->Index_0.children@[pos].remove_post(
            n2->Index_0.children@[pos],
            l1,
            lm,
            key,
            pre + ids_of(n->Index_0.children@.take(pos)),
            ids_of(n->Index_0.children@.skip(pos + 1)) + post,
        ),
        n2->Index_0.children@[pos].size_ok(lm),
        n2->Index_0.keys@ == (if exist {
            n->Index_0.keys@.update(pos - 1, n2->Index_0.children@[pos].ents_of(lm)[0].0)
        } else {
            n->Index_0.keys@
        }),
    ensures
        n.remove_post(n2, l1, lm, key, pre, post),
{
    let cs = n->Index_0.children@;
    let keys = n->Index_0.keys@;
    let c = cs[pos];
    let c1 = n2->Index_0.children@[pos];
    let pre2 = pre + ids_of(cs.take(pos));
    let post2 = ids_of(cs.skip(pos + 1)) + post;
    let mid = seq![c1];
    lemma_ids_of_split(cs, pos);
    assert(pre + n.leaf_ids() + post =~= pre2 + c.leaf_ids() + post2);
    lemma_no_dup_piece(pre, n.leaf_ids(), post);
    assert(c.inv(l1) && c.size_ok(l1));
    lemma_nonempty(c, l1);
    lemma_nonempty(c1, lm);
    lemma_inv_sorted(c, l1);
    let q = choose|q: int| found_at(c.ents_of(l1), key, q) && c1.ents_of(lm) == c.ents_of(l1).remove(q);
    lemma_ids_of_single(c1);
    lemma_ids_of_single(c);
    assert(cs.subrange(pos, pos + 1) =~= seq![c]);
    let ce = c.ents_of(l1);
    if pos > 0 {
        assert(keys[pos - 1] == ce[0].0);
        assert(ce.len() >= 2) by {
            if ce.len() < 2 {
                assert(c1.ents_of(lm).len() == 0);
            }
        }
        lemma_first_after_remove(ce, q);
        if !exist {
            assert(ce[0].0 != key);
            assert(keys.take(pos - 1).push(c1.ents_of(lm)[0].0) =~= keys.take(pos));
        } else {
            assert(keys.take(pos - 1).push(c1.ents_of(lm)[0].0) =~= keys.update(pos - 1, c1.ents_of(lm)[0].0).take(pos));
        }
    }
    assert(n2->Index_0.children@ =~= cs.take(pos) + mid + cs.skip(pos + 1));
    assert(n2->Index_0.keys@ =~= replaced_keys(keys, pos, pos + 1, c1.ents_of(lm)[0].0, Seq::empty()));
    assert forall|x: usize|
        x < l1.len() && !ids_of(cs.subrange(pos, pos + 1)).contains(x) implies #[trigger] same_leaf(
        l1,
        lm,
        x,
    ) by {
    }
    lemma_remove_step(n, l1, lm, pos, pos + 1, mid, Seq::empty(), n2, q);
    let o = offset(cs, l1, pos);
    lemma_child_ents(n, l1, pos);
    assert(n.ents_of(l1)[o + q] == ce[q]);
    assert(found_at(n.ents_of(l1), key, o + q));
    assert(pre + n2.leaf_ids() + post =~= pre2 + c1.leaf_ids() + post2);
    lemma_remove_ids(n, n2, l1, lm, ids_of(cs.take(pos)), ids_of(cs.subrange(pos, pos + 1)), ids_of(mid), ids_of(cs.skip(pos + 1)));
    if pos == 0 {
        assert(n2->Index_0.children@[0] == c1);
    } else {
        assert(n2->Index_0.children@[0] == cs[0]);
    }
}

/// The underflowing child at `pos` and the neighbour it is taken together with
/// (see `pair_start`) may be merged or rebalanced: they form a pair of well formed
/// nodes of one kind, the child one short of its least occupancy, the neighbour
/// within its bounds.
#[verifier::rlimit(80)]
#[verifier::spinoff_prover]
pub proof fn lemma_remove_pair_pre<const FANOUT: usize, K: BPKey, V>(
    n: BPNode<FANOUT, K>,
    l1: Seq<BPLeafNode<FANOUT, K, V>>,
    lm: Seq<BPLeafNode<FANOUT, K, V>>,
    pos: int,
    c1: BPNode<FANOUT, K>,
    key: K,
    pre: Seq<usize>,
    post: Seq<usize>,
)
    requires
        n is Index,
        n.remove_pre(l1, key, pre, post),
        0 <= pos <= n->Index_0.keys@.len(),
        pos > 0 ==> n->Index_0.keys@[pos - 1].rank() <= key.rank(),
        pos < n->Index_0.keys@.len() ==> key.rank() < n->Index_0.keys@[pos].rank(),
        n->Index_0.children@[pos].remove_post(
            c1,
            l1,
            lm,
            key,
            pre + ids_of(n->Index_0.children@.take(pos)),
            ids_of(n->Index_0.children@.skip(pos + 1)) + post,
        ),
        (c1 is Leaf ==> c1.size(lm) < leaf_min(FANOUT as int)),
        (c1 is Index ==> c1.size(lm) < index_min(FANOUT as int)),
    ensures
        ({
            let cs = n->Index_0.children@;
            let j = pair_start(pos);
            let cs2 = cs.update(pos, c1);
            let sib = if pos > 0 { cs[pos - 1] } else { cs[1] };
            &&& j + 1 < cs.len()
            &&& cs2[j].pair_ok(cs2[j + 1], lm, pre + ids_of(cs.take(j)), ids_of(cs.skip(j + 2)) + post)
            &&& sib.size_ok(lm)
            &&& (sib is Leaf) == (c1 is Leaf)
            &&& cs2[j].max_size() == cs2[j + 1].max_size()
            &&& (c1 is Leaf ==> c1.size(lm) + 1 == leaf_min(FANOUT as int))
            &&& (c1 is Index ==> c1.size(lm) + 1 == index_min(FANOUT as int))
            &&& (pos > 0 ==> cs2[j] == sib && cs2[j + 1] == c1)
            &&& (pos == 0 ==> cs2[j] == c1 && cs2[j + 1] == sib)
        }),
{
    let cs = n->Index_0.children@;
    let c = cs[pos];
    let j = pair_start(pos);
    let cs2 = cs.update(pos, c1);
    let pre2 = pre + ids_of(cs.take(pos));
    let post2 = ids_of(cs.skip(pos + 1)) + post;
    let pre3 = pre + ids_of(cs.take(j));
    let post3 = ids_of(cs.skip(j + 2)) + post;
    assert(c.inv(l1) && c.size_ok(l1));
    lemma_ids_of_split(cs, pos);
    assert(pre + n.leaf_ids() + post =~= pre2 + c.leaf_ids() + post2);
    lemma_no_dup_piece(pre, n.leaf_ids(), post);
    assert(cs.subrange(pos, pos + 1) =~= seq![c]);
    lemma_ids_of_single(c);
    lemma_siblings_frame(n, l1, lm, pos, pos + 1);
    let sib = if pos > 0 { cs[pos - 1] } else { cs[1] };
    let a = cs2[j];
    let b = cs2[j + 1];
    // the chain around the pair
    if pos > 0 {
        assert(cs.take(pos) =~= cs.take(j) + seq![sib]);
        lemma_ids_of_concat(cs.take(j), seq![sib]);
        lemma_ids_of_single(sib);
        assert(cs.skip(j + 2) =~= cs.skip(pos + 1));
        assert(pre3 + a.leaf_ids() + b.leaf_ids() + post3 =~= pre2 + c1.leaf_ids() + post2);
    } else {
        assert(cs.skip(1) =~= seq![sib] + cs.skip(2));
        lemma_ids_of_concat(seq![sib], cs.skip(2));
        lemma_ids_of_single(sib);
        assert(cs.take(0) =~= cs.take(j));
        assert(pre3 + a.leaf_ids() + b.leaf_ids() + post3 =~= pre2 + c1.leaf_ids() + post2);
    }
    lemma_pair_sorted(n, l1, lm, pos, c1, key);
}

/// The entries of the pair taken together in `lemma_remove_pair_pre` ascend.
#[verifier::rlimit(60)]
#[verifier::spinoff_prover]
proof fn lemma_pair_sorted<const FANOUT: usize, K: BPKey, V>(
    n: BPNode<FANOUT, K>,
    l1: Seq<BPLeafNode<FANOUT, K, V>>,
    lm: Seq<BPLeafNode<FANOUT, K, V>>,
    pos: int,
    c1: BPNode<FANOUT, K>,
    key: K,
)
    requires
        3 <= FANOUT < usize::MAX,
        n is Index,
        n.inv(l1),
        n->Index_0.children@.len() >= 2,
        0 <= pos < n->Index_0.children@.len(),
        exists|q: int|
            found_at(n->Index_0.children@[pos].ents_of(l1), key, q) && c1.ents_of(lm)
                == n->Index_0.children@[pos].ents_of(l1).remove(q),
        ({
            let j = pair_start(pos);
            let o = if pos == j { j + 1 } else { j };
            n->Index_0.children@[o].ents_of(lm) == n->Index_0.children@[o].ents_of(l1)
        }),
    ensures
        ({
            let j = pair_start(pos);
            let cs2 = n->Index_0.children@.update(pos, c1);
            crate::node::ents_sorted(cs2[j].ents_of(lm) + cs2[j + 1].ents_of(lm))
        }),
{
    let cs = n->Index_0.children@;
    let c = cs[pos];
    let j = pair_start(pos);
    let cs2 = cs.update(pos, c1);
    let a = cs2[j];
    let b = cs2[j + 1];
    let q = choose|q: int| found_at(c.ents_of(l1), key, q) && c1.ents_of(lm) == c.ents_of(l1).remove(q);
    lemma_child_ents(n, l1, j);
    lemma_child_ents(n, l1, j + 1);
    lemma_inv_sorted(n, l1);
    let es = n.ents_of(l1);
    let o = offset(cs, l1, j);
    let e1 = cs[j].ents_of(l1);
    let e2 = cs[j + 1].ents_of(l1);
    let run = e1 + e2;
    assert(run =~= es.subrange(o, o + run.len()));
    crate::node::lemmas::lemma_ents_sorted_subrange(es, o, o + run.len());
    let qq = if pos == j { q } else { e1.len() + q };
    assert(a.ents_of(lm) + b.ents_of(lm) =~= run.remove(qq));
    lemma_ents_sorted_remove(run, qq);
}

/// The facts on the run of two children that `lemma_remove_pair` rests on.
#[verifier::rlimit(100)]
#[verifier::spinoff_prover]
proof fn lemma_remove_pair_run<const FANOUT: usize, K: BPKey, V>(
    n: BPNode<FANOUT, K>,
    n2: BPNode<FANOUT, K>,
    l1: Seq<BPLeafNode<FANOUT, K, V>>,
    lm: Seq<BPLeafNode<FANOUT, K, V>>,
    l2: Seq<BPLeafNode<FANOUT, K, V>>,
    pos: int,
    c1: BPNode<FANOUT, K>,
    mid: Seq<BPNode<FANOUT, K>>,
    km: Seq<K>,
    key: K,
    pre: Seq<usize>,
    post: Seq<usize>,
)
    requires
        n is Index,
        n.remove_pre(l1, key, pre, post),
        0 <= pos <= n->Index_0.keys@.len(),
        pos > 0 ==> n->Index_0.keys@[pos - 1].rank() <= key.rank(),
        pos < n->Index_0.keys@.len() ==> key.rank() < n->Index_0.keys@[pos].rank(),
        n->Index_0.children@[pos].remove_post(
            c1,
            l1,
            lm,
            key,
            pre + ids_of(n->Index_0.children@.take(pos)),
            ids_of(n->Index_0.children@.skip(pos + 1)) + post,
        ),
        (c1 is Leaf ==> c1.size(lm) < leaf_min(FANOUT as int)),
        (c1 is Index ==> c1.size(lm) < index_min(FANOUT as int)),
        ({
            let cs = n->Index_0.children@;
            let j = pair_start(pos);
            let cs2 = cs.update(pos, c1);
            &&& j + 1 < cs.len()
            &&& 1 <= mid.len() <= 2
            &&& km.len() + 1 == mid.len()
            &&& forall|t: int|
                0 <= t < mid.len() ==> {
                    &&& (#[trigger] mid[t]).inv(l2)
                    &&& mid[t].size_ok(l2)
                    &&& mid[t].height() == cs[pos].height()
                }
            &&& forall|t: int| 0 <= t < km.len() ==> #[trigger] km[t] == mid[t + 1].ents_of(l2)[0].0
            &&& ents_at(l2, ids_of(mid)) == cs2[j].ents_of(lm) + cs2[j + 1].ents_of(lm)
            &&& l2.len() == lm.len()
            &&& forall|id: usize|
                id < lm.len() && !(cs2[j].leaf_ids() + cs2[j + 1].leaf_ids()).contains(id)
                    ==> #[trigger] same_leaf(lm, l2, id)
            &&& forall|id: usize| #[trigger]
                ids_of(mid).contains(id) ==> (cs2[j].leaf_ids() + cs2[j + 1].leaf_ids()).contains(id)
            &&& crate::node::chain_ok(pre + ids_of(cs.take(j)) + ids_of(mid) + ids_of(cs.skip(j + 2)) + post, l2)
            &&& (pre + ids_of(cs.take(j)) + ids_of(mid) + ids_of(cs.skip(j + 2)) + post).no_duplicates()
            &&& n2 is Index
            &&& n2->Index_0.children@ == cs.take(j) + mid + cs.skip(j + 2)
            &&& n2->Index_0.keys@ == n->Index_0.keys@.take(j) + km + n->Index_0.keys@.skip(j + 1)
        }),
    ensures
        ({
            let cs = n->Index_0.children@;
            let j = pair_start(pos);
            let rn = cs.subrange(j, j + 2);
            let run = ents_at(l1, ids_of(rn));
            &&& exists|qq: int|
                0 <= qq < run.len() && ents_at(l2, ids_of(mid)) == run.remove(qq) && found_at(
                    n.ents_of(l1),
                    key,
                    offset(cs, l1, j) + qq,
                )
            &&& forall|x: usize|
                x < l1.len() && !ids_of(rn).contains(x) ==> #[trigger] same_leaf(l1, l2, x)
            &&& forall|x: usize| #[trigger] ids_of(mid).contains(x) ==> ids_of(rn).contains(x)
            &&& j > 0 ==> mid[0].ents_of(l2)[0].0 == n->Index_0.keys@[j - 1]
            &&& mid[0].ents_of(l2).len() > 0
        }),
{

    let cs = n->Index_0.children@;
    let keys = n->Index_0.keys@;
    let c = cs[pos];
    let j = pair_start(pos);
    let cs2 = cs.update(pos, c1);
    let a = cs2[j];
    let b = cs2[j + 1];
    let pre2 = pre + ids_of(cs.take(pos));
    let post2 = ids_of(cs.skip(pos + 1)) + post;
    assert(c.inv(l1) && c.size_ok(l1));
    lemma_ids_of_split(cs, pos);
    assert(pre + n.leaf_ids() + post =~= pre2 + c.leaf_ids() + post2);
    lemma_no_dup_piece(pre, n.leaf_ids(), post);
    assert(cs.subrange(pos, pos + 1) =~= seq![c]);
    lemma_ids_of_single(c);
    lemma_siblings_frame(n, l1, lm, pos, pos + 1);
    // the run of the two children
    let rn = cs.subrange(j, j + 2);
    assert(rn =~= seq![cs[j]] + seq![cs[j + 1]]);
    lemma_ids_of_concat(seq![cs[j]], seq![cs[j + 1]]);
    lemma_ids_of_single(cs[j]);
    lemma_ids_of_single(cs[j + 1]);
    lemma_ents_at_concat(l1, cs[j].leaf_ids(), cs[j + 1].leaf_ids());
    let e1 = cs[j].ents_of(l1);
    let e2 = cs[j + 1].ents_of(l1);
    let run = e1 + e2;
    assert(ents_at(l1, ids_of(rn)) == run);
    let q = choose|q: int| found_at(c.ents_of(l1), key, q) && c1.ents_of(lm) == c.ents_of(l1).remove(q);
    let qq = if pos == j { q } else { e1.len() + q };
    assert(a.ents_of(lm) + b.ents_of(lm) =~= run.remove(qq));
    // what the pair step kept
    assert forall|x: usize|
        x < l1.len() && !ids_of(rn).contains(x) implies #[trigger] same_leaf(l1, l2, x) by {
        lemma_contains_concat3(Seq::empty(), cs[j].leaf_ids(), cs[j + 1].leaf_ids(), x);
        assert(Seq::<usize>::empty() + cs[j].leaf_ids() + cs[j + 1].leaf_ids() =~= ids_of(rn));
        assert(!c.leaf_ids().contains(x));
        assert(same_leaf(l1, lm, x));
        lemma_contains_concat3(Seq::empty(), a.leaf_ids(), b.leaf_ids(), x);
        assert(Seq::<usize>::empty() + a.leaf_ids() + b.leaf_ids() =~= a.leaf_ids() + b.leaf_ids());
        assert(!c1.leaf_ids().contains(x));
        assert(same_leaf(lm, l2, x));
    }
    // the least key of the pair where a separator names it
    lemma_ents_split(mid, l2, 0);
    lemma_nonempty(mid[0], l2);
    assert(mid.take(0) =~= Seq::<BPNode<FANOUT, K>>::empty());
    assert(ids_of(mid.take(0)) == Seq::<usize>::empty());
    if j > 0 {
        lemma_nonempty(cs[j], l1);
        assert(run.remove(qq)[0] == e1[0]);
    }
    lemma_child_ents(n, l1, j);
    lemma_child_ents(n, l1, j + 1);
    let o = offset(cs, l1, j);
    let es = n.ents_of(l1);
    assert(es[o + qq] == run[qq]);
    assert(found_at(es, key, o + qq));
    assert forall|x: usize| #[trigger] ids_of(mid).contains(x) implies ids_of(rn).contains(x) by {
        lemma_contains_concat3(Seq::empty(), a.leaf_ids(), b.leaf_ids(), x);
        assert(Seq::<usize>::empty() + a.leaf_ids() + b.leaf_ids() =~= a.leaf_ids() + b.leaf_ids());
        lemma_contains_concat3(Seq::empty(), cs[j].leaf_ids(), cs[j + 1].leaf_ids(), x);
        assert(Seq::<usize>::empty() + cs[j].leaf_ids() + cs[j + 1].leaf_ids() =~= ids_of(rn));
    }
    if j > 0 {
        assert(keys[j - 1] == e1[0].0);
    }
}

/// Removal at an index node whose child underflowed and was merged with, or
/// rebalanced against, its neighbour: the pair was replaced by `mid`.
#[verifier::rlimit(100)]
#[verifier::spinoff_prover]
pub proof fn lemma_remove_pair<const FANOUT: usize, K: BPKey, V>(
    n: BPNode<FANOUT, K>,
    n2: BPNode<FANOUT, K>,
    l1: Seq<BPLeafNode<FANOUT, K, V>>,
    lm: Seq<BPLeafNode<FANOUT, K, V>>,
    l2: Seq<BPLeafNode<FANOUT, K, V>>,
    pos: int,
    c1: BPNode<FANOUT, K>,
    mid: Seq<BPNode<FANOUT, K>>,
    km: Seq<K>,
    key: K,
    pre: Seq<usize>,
    post: Seq<usize>,
)
    requires
        n is Index,
        n.remove_pre(l1, key, pre, post),
        0 <= pos <= n->Index_0.keys@.len(),
        pos > 0 ==> n->Index_0.keys@[pos - 1].rank() <= key.rank(),
        pos < n->Index_0.keys@.len() ==> key.rank() < n->Index_0.keys@[pos].rank(),
        n->Index_0.children@[pos].remove_post(
            c1,
            l1,
            lm,
            key,
            pre + ids_of(n->Index_0.children@.take(pos)),
            ids_of(n->Index_0.children@.skip(pos + 1)) + post,
        ),
        (c1 is Leaf ==> c1.size(lm) < leaf_min(FANOUT as int)),
        (c1 is Index ==> c1.size(lm) < index_min(FANOUT as int)),
        ({
            let cs = n->Index_0.children@;
            let j = pair_start(pos);
            let cs2 = cs.update(pos, c1);
            &&& j + 1 < cs.len()
            &&& 1 <= mid.len() <= 2
            &&& km.len() + 1 == mid.len()
            &&& forall|t: int|
                0 <= t < mid.len() ==> {
                    &&& (#[trigger] mid[t]).inv(l2)
                    &&& mid[t].size_ok(l2)
                    &&& mid[t].height() == cs[pos].height()
                }
            &&& forall|t: int| 0 <= t < km.len() ==> #[trigger] km[t] == mid[t + 1].ents_of(l2)[0].0
            &&& ents_at(l2, ids_of(mid)) == cs2[j].ents_of(lm) + cs2[j + 1].ents_of(lm)
            &&& l2.len() == lm.len()
            &&& forall|id: usize|
                id < lm.len() && !(cs2[j].leaf_ids() + cs2[j + 1].leaf_ids()).contains(id)
                    ==> #[trigger] same_leaf(lm, l2, id)
            &&& forall|id: usize| #[trigger]
                ids_of(mid).contains(id) ==> (cs2[j].leaf_ids() + cs2[j + 1].leaf_ids()).contains(id)
            &&& crate::node::chain_ok(pre + ids_of(cs.take(j)) + ids_of(mid) + ids_of(cs.skip(j + 2)) + post, l2)
            &&& (pre + ids_of(cs.take(j)) + ids_of(mid) + ids_of(cs.skip(j + 2)) + post).no_duplicates()
            &&& n2 is Index
            &&& n2->Index_0.children@ == cs.take(j) + mid + cs.skip(j + 2)
            &&& n2->Index_0.keys@ == n->Index_0.keys@.take(j) + km + n->Index_0.keys@.skip(j + 1)
        }),
    ensures
        n.remove_post(n2, l1, l2, key, pre, post),
{
    let cs = n->Index_0.children@;
    let keys = n->Index_0.keys@;
    let j = pair_start(pos);
    let rn = cs.subrange(j, j + 2);
    lemma_remove_pair_run(n, n2, l1, lm, l2, pos, c1, mid, km, key, pre, post);
    let qq = choose|qq: int|
        0 <= qq < ents_at(l1, ids_of(rn)).len() && ents_at(l2, ids_of(mid)) == ents_at(l1, ids_of(rn)).remove(qq)
            && found_at(n.ents_of(l1), key, offset(cs, l1, j) + qq);
    if j > 0 {
        assert(keys.take(j - 1).push(mid[0].ents_of(l2)[0].0) =~= keys.take(j));
    }
    assert(n2->Index_0.keys@ =~= replaced_keys(keys, j, j + 2, mid[0].ents_of(l2)[0].0, km));
    lemma_no_dup_piece(pre, n.leaf_ids(), post);
    lemma_remove_step(n, l1, l2, j, j + 2, mid, km, n2, qq);
    assert(pre + n2.leaf_ids() + post =~= pre + ids_of(cs.take(j)) + ids_of(mid) + ids_of(cs.skip(j + 2)) + post);
    lemma_remove_ids(n, n2, l1, l2, ids_of(cs.take(j)), ids_of(rn), ids_of(mid), ids_of(cs.skip(j + 2)));
    if j == 0 {
        assert(n2->Index_0.children@[0] == mid[0]);
    } else {
        assert(n2->Index_0.children@[0] == cs[0]);
    }
}

/// Removal at an index node whose underflowing child was merged with its
/// neighbour, which was at its least occupancy.
#[verifier::rlimit(80)]
#[verifier::spinoff_prover]
pub proof fn lemma_remove_merged<const FANOUT: usize, K: BPKey, V>(
    n: BPNode<FANOUT, K>,
    n2: BPNode<FANOUT, K>,
    l1: Seq<BPLeafNode<FANOUT, K, V>>,
    lm: Seq<BPLeafNode<FANOUT, K, V>>,
    l2: Seq<BPLeafNode<FANOUT, K, V>>,
    pos: int,
    c1: BPNode<FANOUT, K>,
    key: K,
    pre: Seq<usize>,
    post: Seq<usize>,
)
    requires
        n is Index,
        n.remove_pre(l1, key, pre, post),
        0 <= pos <= n->Index_0.keys@.len(),
        pos > 0 ==> n->Index_0.keys@[pos - 1].rank() <= key.rank(),
        pos < n->Index_0.keys@.len() ==> key.rank() < n->Index_0.keys@[pos].rank(),
        n->Index_0.children@[pos].remove_post(
            c1,
            l1,
            lm,
            key,
            pre + ids_of(n->Index_0.children@.take(pos)),
            ids_of(n->Index_0.children@.skip(pos + 1)) + post,
        ),
        (c1 is Leaf ==> c1.size(lm) < leaf_min(FANOUT as int)),
        (c1 is Index ==> c1.size(lm) < index_min(FANOUT as int)),
        ({
            let cs = n->Index_0.children@;
            let j = pair_start(pos);
            let cs2 = cs.update(pos, c1);
            let a = cs2[j];
            let b = cs2[j + 1];
            let sib = if pos > 0 { cs[pos - 1] } else { cs[1] };
            let m = n2->Index_0.children@[j];
            &&& j + 1 < cs.len()
            &&& (sib is Leaf ==> sib.size(lm) == leaf_min(FANOUT as int))
            &&& (sib is Index ==> sib.size(lm) == index_min(FANOUT as int))
            &&& n2 is Index
            &&& n2->Index_0.keys@ == n->Index_0.keys@.remove(j)
            &&& n2->Index_0.children@ == cs2.remove(j + 1).update(j, m)
            &&& m.inv(l2)
            &&& m.height() == a.height()
            &&& m.ents_of(l2) == a.ents_of(lm) + b.ents_of(lm)
            &&& m.size(l2) == a.size(lm) + b.size(lm)
            &&& crate::node::chain_ok(pre + ids_of(cs.take(j)) + m.leaf_ids() + (ids_of(cs.skip(j + 2)) + post), l2)
            &&& (pre + ids_of(cs.take(j)) + m.leaf_ids() + (ids_of(cs.skip(j + 2)) + post)).no_duplicates()
            &&& forall|id: usize| #[trigger] m.leaf_ids().contains(id) ==> (a.leaf_ids() + b.leaf_ids()).contains(id)
            &&& a.pair_frame(b, lm, l2)
        }),
    ensures
        n.remove_post(n2, l1, l2, key, pre, post),
{
    let cs = n->Index_0.children@;
    let keys = n->Index_0.keys@;
    let j = pair_start(pos);
    let cs2 = cs.update(pos, c1);
    let a = cs2[j];
    let b = cs2[j + 1];
    let m = n2->Index_0.children@[j];
    let mid = seq![m];
    lemma_remove_pair_pre(n, l1, lm, pos, c1, key, pre, post);
    assert(cs[j].height() == cs[0].height() && cs[pos].height() == cs[0].height());
    assert(c1.height() == cs[pos].height());
    lemma_ids_of_single(m);
    assert(n2->Index_0.children@ =~= cs.take(j) + mid + cs.skip(j + 2));
    assert(n2->Index_0.keys@ =~= keys.take(j) + Seq::<K>::empty() + keys.skip(j + 1));
    assert(m.size_ok(l2));
    assert(pre + ids_of(cs.take(j)) + ids_of(mid) + ids_of(cs.skip(j + 2)) + post =~= pre + ids_of(
        cs.take(j),
    ) + m.leaf_ids() + (ids_of(cs.skip(j + 2)) + post));
    lemma_remove_pair(n, n2, l1, lm, l2, pos, c1, mid, Seq::empty(), key, pre, post);
}

/// Removal at an index node whose underflowing child took one entry or child from
/// its neighbour, which was above its least occupancy.
#[verifier::rlimit(80)]
#[verifier::spinoff_prover]
pub proof fn lemma_remove_rebalanced<const FANOUT: usize, K: BPKey, V>(
    n: BPNode<FANOUT, K>,
    n2: BPNode<FANOUT, K>,
    l1: Seq<BPLeafNode<FANOUT, K, V>>,
    lm: Seq<BPLeafNode<FANOUT, K, V>>,
    l2: Seq<BPLeafNode<FANOUT, K, V>>,
    pos: int,
    c1: BPNode<FANOUT, K>,
    key: K,
    pre: Seq<usize>,
    post: Seq<usize>,
)
    requires
        n is Index,
        n.remove_pre(l1, key, pre, post),
        0 <= pos <= n->Index_0.keys@.len(),
        pos > 0 ==> n->Index_0.keys@[pos - 1].rank() <= key.rank(),
        pos < n->Index_0.keys@.len() ==> key.rank() < n->Index_0.keys@[pos].rank(),
        n->Index_0.children@[pos].remove_post(
            c1,
            l1,
            lm,
            key,
            pre + ids_of(n->Index_0.children@.take(pos)),
            ids_of(n->Index_0.children@.skip(pos + 1)) + post,
        ),
        (c1 is Leaf ==> c1.size(lm) < leaf_min(FANOUT as int)),
        (c1 is Index ==> c1.size(lm) < index_min(FANOUT as int)),
        ({
            let cs = n->Index_0.children@;
            let j = pair_start(pos);
            let cs2 = cs.update(pos, c1);
            let a = cs2[j];
            let b = cs2[j + 1];
            let sib = if pos > 0 { cs[pos - 1] } else { cs[1] };
            let a2 = n2->Index_0.children@[j];
            let b2 = n2->Index_0.children@[j + 1];
            &&& j + 1 < cs.len()
            &&& (sib is Leaf ==> sib.size(lm) != leaf_min(FANOUT as int))
            &&& (sib is Index ==> sib.size(lm) != index_min(FANOUT as int))
            &&& n2 is Index
            &&& n2->Index_0.keys@ == n->Index_0.keys@.update(j, b2.ents_of(l2)[0].0)
            &&& n2->Index_0.children@ == cs2.update(j, a2).update(j + 1, b2)
            &&& a.borrow_post(b, a2, b2, lm, l2, pre + ids_of(cs.take(j)), ids_of(cs.skip(j + 2)) + post)
            &&& pos > 0 ==> a2.size(l2) == a.size(lm) - 1 && b2.size(l2) == b.size(lm) + 1
            &&& pos == 0 ==> a2.size(l2) == a.size(lm) + 1 && b2.size(l2) == b.size(lm) - 1
        }),
    ensures
        n.remove_post(n2, l1, l2, key, pre, post),
{
    let cs = n->Index_0.children@;
    let keys = n->Index_0.keys@;
    let j = pair_start(pos);
    let cs2 = cs.update(pos, c1);
    let a = cs2[j];
    let b = cs2[j + 1];
    let a2 = n2->Index_0.children@[j];
    let b2 = n2->Index_0.children@[j + 1];
    let mid = seq![a2, b2];
    let km = seq![b2.ents_of(l2)[0].0];
    lemma_remove_pair_pre(n, l1, lm, pos, c1, key, pre, post);
    assert(cs[j].height() == cs[0].height() && cs[pos].height() == cs[0].height());
    assert(c1.height() == cs[pos].height());
    lemma_ids_of_single(a2);
    lemma_ids_of_single(b2);
    assert(mid =~= seq![a2] + seq![b2]);
    lemma_ids_of_concat(seq![a2], seq![b2]);
    lemma_ents_at_concat(l2, a2.leaf_ids(), b2.leaf_ids());
    assert(n2->Index_0.children@ =~= cs.take(j) + mid + cs.skip(j + 2));
    assert(n2->Index_0.keys@ =~= keys.take(j) + km + keys.skip(j + 1));
    assert(a2.size_ok(l2));
    assert(b2.size_ok(l2));
    assert(pre + ids_of(cs.take(j)) + ids_of(mid) + ids_of(cs.skip(j + 2)) + post =~= (pre + ids_of(
        cs.take(j),
    )) + a2.leaf_ids() + b2.leaf_ids() + (ids_of(cs.skip(j + 2)) + post));
    assert forall|id: usize| #[trigger] ids_of(mid).contains(id) implies (a.leaf_ids()
        + b.leaf_ids()).contains(id) by {
    }
    lemma_remove_pair(n, n2, l1, lm, l2, pos, c1, mid, km, key, pre, post);
}

} // verus!
