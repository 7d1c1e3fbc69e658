use vstd::prelude::*;

use crate::key::BPKey;
use crate::node::lemmas::{
    lemma_ents_at_concat, lemma_ents_at_frame, lemma_ents_sorted_concat, lemma_ents_sorted_subrange,
    lemma_ents_split, lemma_ids_in_range, lemma_ids_of_concat, lemma_inv_frame, lemma_inv_sorted,
    lemma_nonempty, lemma_offset_mono, lemma_same_content_piece, lemma_separator, offset,
    same_content, same_leaf,
};
use crate::node::{BPIndexNode, BPLeafNode, BPNode, ents_at, ents_sorted, ids_of};

verus! {

/// The children outside `lo..hi` are unchanged by a change of the arena that
/// keeps every slot not named below `lo..hi`.
pub proof fn lemma_siblings_frame<const FANOUT: usize, K: BPKey, V>(
    n: BPNode<FANOUT, K>,
    l1: Seq<BPLeafNode<FANOUT, K, V>>,
    l2: Seq<BPLeafNode<FANOUT, K, V>>,
    lo: int,
    hi: int,
)
    requires
        n is Index,
        n.inv(l1),
        n.leaf_ids().no_duplicates(),
        0 <= lo <= hi <= n->Index_0.children@.len(),
        forall|id: usize|
            id < l1.len() && !ids_of(n->Index_0.children@.subrange(lo, hi)).contains(id)
                ==> #[trigger] same_leaf(l1, l2, id),
    ensures
        ({
            let cs = n->Index_0.children@;
            &&& forall|i: int|
                0 <= i < cs.len() && !(lo <= i < hi) ==> {
                    &&& (#[trigger] cs[i]).inv(l2)
                    &&& cs[i].ents_of(l2) == cs[i].ents_of(l1)
                    &&& cs[i].size_ok(l2) == cs[i].size_ok(l1)
                    &&& cs[i].size(l2) == cs[i].size(l1)
                }
            &&& ents_at(l2, ids_of(cs.take(lo))) == ents_at(l1, ids_of(cs.take(lo)))
            &&& ents_at(l2, ids_of(cs.skip(hi))) == ents_at(l1, ids_of(cs.skip(hi)))
            &&& n.leaf_ids() == ids_of(cs.take(lo)) + ids_of(cs.subrange(lo, hi)) + ids_of(
                cs.skip(hi),
            )
        }),
{
    let cs = n->Index_0.children@;
    let x = ids_of(cs.take(lo));
    let y = ids_of(cs.subrange(lo, hi));
    let z = ids_of(cs.skip(hi));
    assert(cs =~= cs.take(lo) + cs.subrange(lo, hi) + cs.skip(hi));
    lemma_ids_of_concat(cs.take(lo) + cs.subrange(lo, hi), cs.skip(hi));
    lemma_ids_of_concat(cs.take(lo), cs.subrange(lo, hi));
    let all = x + y + z;
    assert(n.leaf_ids() == all);
    lemma_ids_in_range(n, l1);
    assert forall|j: int| 0 <= j < x.len() implies same_leaf(l1, l2, #[trigger] x[j]) by {
        assert(all[j] == x[j]);
        if y.contains(x[j]) {
            let k = choose|k: int| 0 <= k < y.len() && y[k] == x[j];
            assert(all[x.len() + k] == y[k]);
        }
    }
    assert forall|j: int| 0 <= j < z.len() implies same_leaf(l1, l2, #[trigger] z[j]) by {
        assert(all[x.len() + y.len() + j] == z[j]);
        if y.contains(z[j]) {
            let k = choose|k: int| 0 <= k < y.len() && y[k] == z[j];
            assert(all[x.len() + k] == y[k]);
        }
    }
    lemma_ents_at_frame(l1, l2, x);
    lemma_ents_at_frame(l1, l2, z);
    assert forall|i: int| 0 <= i < cs.len() && !(lo <= i < hi) implies {
        &&& (#[trigger] cs[i]).inv(l2)
        &&& cs[i].ents_of(l2) == cs[i].ents_of(l1)
        &&& cs[i].size_ok(l2) == cs[i].size_ok(l1)
        &&& cs[i].size(l2) == cs[i].size(l1)
    } by {
        if i < lo {
            let t = cs.take(lo);
            assert(t[i] == cs[i]);
            lemma_ents_split(t, l1, i);
            crate::node::lemmas::lemma_ids_of_split(t, i);
            lemma_same_content_piece(l1, l2, ids_of(t.take(i)), cs[i].leaf_ids(), ids_of(t.skip(i + 1)));
        } else {
            let t = cs.skip(hi);
            assert(t[i - hi] == cs[i]);
            crate::node::lemmas::lemma_ids_of_split(t, i - hi);
            lemma_same_content_piece(
                l1,
                l2,
                ids_of(t.take(i - hi)),
                cs[i].leaf_ids(),
                ids_of(t.skip(i - hi + 1)),
            );
        }
        lemma_inv_frame(cs[i], l1, l2);
    }
}

/// The separators of an index node whose children `lo..hi` were replaced by `mid`:
/// the separator left of the run becomes the least key of `mid`, `km` stands
/// between the nodes of `mid`, and the others are kept.
pub open spec fn replaced_keys<K>(
    keys: Seq<K>,
    lo: int,
    hi: int,
    first: K,
    km: Seq<K>,
) -> Seq<K> {
    (if lo > 0 {
        keys.take(lo - 1).push(first)
    } else {
        Seq::empty()
    }) + km + keys.skip(hi - 1)
}

/// Replacing the run of children `lo..hi` of a well formed index node by a run
/// `mid` of well formed nodes within their bounds and of the same height, whose
/// entries ascend and fit between the neighbouring separators, gives a well formed
/// node whose entries are those of the run swapped for those of `mid`.
#[verifier::rlimit(80)]
#[verifier::spinoff_prover]
pub proof fn lemma_replace_children<const FANOUT: usize, K: BPKey, V>(
    n: BPNode<FANOUT, K>,
    l1: Seq<BPLeafNode<FANOUT, K, V>>,
    l2: Seq<BPLeafNode<FANOUT, K, V>>,
    lo: int,
    hi: int,
    mid: Seq<BPNode<FANOUT, K>>,
    km: Seq<K>,
    n2: BPNode<FANOUT, K>,
)
    requires
        3 <= FANOUT < usize::MAX,
        n is Index,
        n.inv(l1),
        0 <= lo < hi <= n->Index_0.children@.len(),
        mid.len() >= 1,
        km.len() + 1 == mid.len(),
        forall|i: int|
            0 <= i < n->Index_0.children@.len() && !(lo <= i < hi) ==> {
                &&& (#[trigger] n->Index_0.children@[i]).inv(l2)
                &&& n->Index_0.children@[i].ents_of(l2) == n->Index_0.children@[i].ents_of(l1)
                &&& n->Index_0.children@[i].size_ok(l2)
            },
        ents_at(l2, ids_of(n->Index_0.children@.take(lo))) == ents_at(
            l1,
            ids_of(n->Index_0.children@.take(lo)),
        ),
        ents_at(l2, ids_of(n->Index_0.children@.skip(hi))) == ents_at(
            l1,
            ids_of(n->Index_0.children@.skip(hi)),
        ),
        forall|t: int|
            0 <= t < mid.len() ==> {
                &&& (#[trigger] mid[t]).inv(l2)
                &&& mid[t].size_ok(l2)
                &&& mid[t].height() == n->Index_0.children@[0].height()
            },
        forall|t: int| 0 <= t < km.len() ==> #[trigger] km[t] == mid[t + 1].ents_of(l2)[0].0,
        ents_sorted(ents_at(l2, ids_of(mid))),
        lo > 0 ==> n->Index_0.keys@[lo - 1].rank() <= mid[0].ents_of(l2)[0].0.rank(),
        hi < n->Index_0.children@.len() ==> ents_at(l2, ids_of(mid)).last().0.rank()
            < n->Index_0.keys@[hi - 1].rank(),
        n2 is Index,
        n2->Index_0.children@ == n->Index_0.children@.take(lo) + mid + n->Index_0.children@.skip(
            hi,
        ),
        n2->Index_0.keys@ == replaced_keys(
            n->Index_0.keys@,
            lo,
            hi,
            mid[0].ents_of(l2)[0].0,
            km,
        ),
        n2->Index_0.keys@.len() <= FANOUT,
    ensures
        n2.inv(l2),
        n2.leaf_ids() == ids_of(n->Index_0.children@.take(lo)) + ids_of(mid) + ids_of(
            n->Index_0.children@.skip(hi),
        ),
        n2.ents_of(l2) == ents_at(l1, ids_of(n->Index_0.children@.take(lo))) + ents_at(
            l2,
            ids_of(mid),
        ) + ents_at(l1, ids_of(n->Index_0.children@.skip(hi))),
        n.ents_of(l1) == ents_at(l1, ids_of(n->Index_0.children@.take(lo))) + ents_at(
            l1,
            ids_of(n->Index_0.children@.subrange(lo, hi)),
        ) + ents_at(l1, ids_of(n->Index_0.children@.skip(hi))),
{
    let cs = n->Index_0.children@;
    let keys = n->Index_0.keys@;
    let cs2 = n2->Index_0.children@;
    let keys2 = n2->Index_0.keys@;
    let a = ents_at(l1, ids_of(cs.take(lo)));
    let m = ents_at(l1, ids_of(cs.subrange(lo, hi)));
    let b = ents_at(l1, ids_of(cs.skip(hi)));
    let e = ents_at(l2, ids_of(mid));
    let es1 = n.ents_of(l1);
    let d = hi - lo - mid.len();
    // the old entries, in three pieces
    assert(cs =~= cs.take(lo) + cs.subrange(lo, hi) + cs.skip(hi));
    lemma_ids_of_concat(cs.take(lo) + cs.subrange(lo, hi), cs.skip(hi));
    lemma_ids_of_concat(cs.take(lo), cs.subrange(lo, hi));
    lemma_ents_at_concat(l1, ids_of(cs.take(lo)) + ids_of(cs.subrange(lo, hi)), ids_of(cs.skip(hi)));
    lemma_ents_at_concat(l1, ids_of(cs.take(lo)), ids_of(cs.subrange(lo, hi)));
    assert(es1 == a + m + b);
    assert(cs.take(hi) =~= cs.take(lo) + cs.subrange(lo, hi));
    lemma_ids_of_concat(cs.take(lo), cs.subrange(lo, hi));
    lemma_ents_at_concat(l1, ids_of(cs.take(lo)), ids_of(cs.subrange(lo, hi)));
    assert(offset(cs, l1, hi) == a.len() + m.len());
    // the new entries, in three pieces
    lemma_ids_of_concat(cs.take(lo) + mid, cs.skip(hi));
    lemma_ids_of_concat(cs.take(lo), mid);
    lemma_ents_at_concat(l2, ids_of(cs.take(lo)) + ids_of(mid), ids_of(cs.skip(hi)));
    lemma_ents_at_concat(l2, ids_of(cs.take(lo)), ids_of(mid));
    assert(n2.ents_of(l2) == a + e + b);
    // the first entry of mid
    lemma_ents_split(mid, l2, 0);
    lemma_nonempty(mid[0], l2);
    assert(mid.take(0) =~= Seq::<BPNode<FANOUT, K>>::empty());
    assert(ids_of(mid.take(0)) == Seq::<usize>::empty());
    assert(e[0] == mid[0].ents_of(l2)[0]);
    // ascending
    lemma_inv_sorted(n, l1);
    assert(a =~= es1.subrange(0, a.len() as int));
    lemma_ents_sorted_subrange(es1, 0, a.len() as int);
    assert(b =~= es1.subrange((a.len() + m.len()) as int, es1.len() as int));
    lemma_ents_sorted_subrange(es1, (a.len() + m.len()) as int, es1.len() as int);
    if lo > 0 && a.len() > 0 {
        lemma_separator(n, l1, lo - 1);
        assert(a.last() == es1[a.len() - 1]);
    }
    if hi < cs.len() && b.len() > 0 {
        lemma_separator(n, l1, hi - 1);
        assert(b[0] == es1[(a.len() + m.len()) as int]);
    }
    if lo == 0 {
        assert(a.len() == 0) by {
            assert(cs.take(0) =~= Seq::<BPNode<FANOUT, K>>::empty());
        }
    }
    lemma_ents_sorted_concat(a, e);
    lemma_ents_sorted_concat(a + e, b);
    lemma_replace_shape(n, l1, l2, lo, hi, mid, km, n2);
}

/// The children and separators of the node built in `lemma_replace_children`.
#[verifier::rlimit(40)]
#[verifier::spinoff_prover]
proof fn lemma_replace_shape<const FANOUT: usize, K: BPKey, V>(
    n: BPNode<FANOUT, K>,
    l1: Seq<BPLeafNode<FANOUT, K, V>>,
    l2: Seq<BPLeafNode<FANOUT, K, V>>,
    lo: int,
    hi: int,
    mid: Seq<BPNode<FANOUT, K>>,
    km: Seq<K>,
    n2: BPNode<FANOUT, K>,
)
    requires
        n is Index,
        n.inv(l1),
        0 <= lo < hi <= n->Index_0.children@.len(),
        mid.len() >= 1,
        km.len() + 1 == mid.len(),
        forall|i: int|
            0 <= i < n->Index_0.children@.len() && !(lo <= i < hi) ==> {
                &&& (#[trigger] n->Index_0.children@[i]).inv(l2)
                &&& n->Index_0.children@[i].ents_of(l2) == n->Index_0.children@[i].ents_of(l1)
                &&& n->Index_0.children@[i].size_ok(l2)
            },
        forall|t: int|
            0 <= t < mid.len() ==> {
                &&& (#[trigger] mid[t]).inv(l2)
                &&& mid[t].size_ok(l2)
                &&& mid[t].height() == n->Index_0.children@[0].height()
            },
        forall|t: int| 0 <= t < km.len() ==> #[trigger] km[t] == mid[t + 1].ents_of(l2)[0].0,
        n2 is Index,
        n2->Index_0.children@ == n->Index_0.children@.take(lo) + mid + n->Index_0.children@.skip(
            hi,
        ),
        n2->Index_0.keys@ == replaced_keys(
            n->Index_0.keys@,
            lo,
            hi,
            mid[0].ents_of(l2)[0].0,
            km,
        ),
    ensures
        forall|i: int|
            0 <= i < n2->Index_0.children@.len() ==> {
                &&& (#[trigger] n2->Index_0.children@[i]).inv(l2)
                &&& n2->Index_0.children@[i].size_ok(l2)
                &&& n2->Index_0.children@[i].height() == n2->Index_0.children@[0].height()
            },
        forall|i: int|
            0 <= i < n2->Index_0.keys@.len() ==> #[trigger] n2->Index_0.keys@[i]
                == n2->Index_0.children@[i + 1].ents_of(l2)[0].0,
{
    let cs = n->Index_0.children@;
    let keys = n->Index_0.keys@;
    let cs2 = n2->Index_0.children@;
    let keys2 = n2->Index_0.keys@;
    let d = hi - lo - mid.len();
    // children
    assert forall|i: int| 0 <= i < cs2.len() implies {
        &&& (#[trigger] cs2[i]).inv(l2)
        &&& cs2[i].size_ok(l2)
        &&& cs2[i].height() == cs2[0].height()
    } by {
        if i < lo {
            assert(cs2[i] == cs[i]);
        } else if i < lo + mid.len() {
            assert(cs2[i] == mid[i - lo]);
        } else {
            assert(cs2[i] == cs[i + d]);
        }
        if lo > 0 {
            assert(cs2[0] == cs[0]);
        } else {
            assert(cs2[0] == mid[0]);
        }
    }
    // separators
    assert forall|i: int| 0 <= i < keys2.len() implies #[trigger] keys2[i] == cs2[i
        + 1].ents_of(l2)[0].0 by {
        if i < lo - 1 {
            assert(keys2[i] == keys[i]);
            assert(cs2[i + 1] == cs[i + 1]);
        } else if i == lo - 1 {
            assert(cs2[i + 1] == mid[0]);
        } else if i < lo + mid.len() - 1 {
            assert(keys2[i] == km[i - lo]);
            assert(cs2[i + 1] == mid[i - lo + 1]);
        } else {
            assert(keys2[i] == keys[i + d]);
            assert(cs2[i + 1] == cs[i + 1 + d]);
        }
    }
}

/// A piece of a sequence without repeats has none.
pub proof fn lemma_no_dup_piece<A>(a: Seq<A>, b: Seq<A>, c: Seq<A>)
    requires
        (a + b + c).no_duplicates(),
    ensures
        b.no_duplicates(),
{
    let s = a + b + c;
    assert forall|i: int, j: int| 0 <= i < b.len() && 0 <= j < b.len() && i != j implies b[i]
        != b[j] by {
        assert(s[a.len() + i] == b[i]);
        assert(s[a.len() + j] == b[j]);
    }
}

/// What stands in a join of three sequences stands in one of them.
pub proof fn lemma_contains_concat3<A>(a: Seq<A>, b: Seq<A>, c: Seq<A>, x: A)
    ensures
        (a + b + c).contains(x) <==> (a.contains(x) || b.contains(x) || c.contains(x)),
{
    let s = a + b + c;
    if s.contains(x) {
        let j = choose|j: int| 0 <= j < s.len() && s[j] == x;
        if j < a.len() {
            assert(a[j] == x);
        } else if j < a.len() + b.len() {
            assert(b[j - a.len()] == x);
        } else {
            assert(c[j - a.len() - b.len()] == x);
        }
    }
    if a.contains(x) {
        let j = choose|j: int| 0 <= j < a.len() && a[j] == x;
        assert(s[j] == x);
    }
    if b.contains(x) {
        let j = choose|j: int| 0 <= j < b.len() && b[j] == x;
        assert(s[a.len() + j] == x);
    }
    if c.contains(x) {
        let j = choose|j: int| 0 <= j < c.len() && c[j] == x;
        assert(s[a.len() + b.len() + j] == x);
    }
}

/// One step of insertion at an index node: child `pos`, into which the key was
/// routed, was replaced by `mid` (itself, or its two halves after a split), whose
/// entries are the child's with the new entry added at `p`.
#[verifier::rlimit(80)]
#[verifier::spinoff_prover]
pub proof fn lemma_insert_step<const FANOUT: usize, K: BPKey, V>(
    n: BPNode<FANOUT, K>,
    l1: Seq<BPLeafNode<FANOUT, K, V>>,
    l2: Seq<BPLeafNode<FANOUT, K, V>>,
    pos: int,
    mid: Seq<BPNode<FANOUT, K>>,
    km: Seq<K>,
    n2: BPNode<FANOUT, K>,
    key: K,
    value: V,
    p: int,
)
    requires
        3 <= FANOUT < usize::MAX,
        n is Index,
        n.inv(l1),
        n.leaf_ids().no_duplicates(),
        n->Index_0.keys@.len() + km.len() <= FANOUT,
        0 <= pos < n->Index_0.children@.len(),
        pos > 0 ==> n->Index_0.keys@[pos - 1].rank() < key.rank(),
        pos < n->Index_0.keys@.len() ==> key.rank() < n->Index_0.keys@[pos].rank(),
        mid.len() >= 1,
        km.len() + 1 == mid.len(),
        forall|t: int|
            0 <= t < mid.len() ==> {
                &&& (#[trigger] mid[t]).inv(l2)
                &&& mid[t].size_ok(l2)
                &&& mid[t].height() == n->Index_0.children@[pos].height()
            },
        forall|t: int| 0 <= t < km.len() ==> #[trigger] km[t] == mid[t + 1].ents_of(l2)[0].0,
        0 <= p <= n->Index_0.children@[pos].ents_of(l1).len(),
        ents_at(l2, ids_of(mid)) == n->Index_0.children@[pos].ents_of(l1).insert(p, (key, value)),
        ents_sorted(ents_at(l2, ids_of(mid))),
        forall|id: usize|
            id < l1.len() && !n->Index_0.children@[pos].leaf_ids().contains(id)
                ==> #[trigger] same_leaf(l1, l2, id),
        n2 is Index,
        n2->Index_0.children@ == n->Index_0.children@.take(pos) + mid + n->Index_0.children@.skip(
            pos + 1,
        ),
        n2->Index_0.keys@ == n->Index_0.keys@.take(pos) + km + n->Index_0.keys@.skip(pos),
    ensures
        n2.inv(l2),
        n2.leaf_ids() == ids_of(n->Index_0.children@.take(pos)) + ids_of(mid) + ids_of(
            n->Index_0.children@.skip(pos + 1),
        ),
        n.leaf_ids() == ids_of(n->Index_0.children@.take(pos)) + n->Index_0.children@[pos].leaf_ids()
            + ids_of(n->Index_0.children@.skip(pos + 1)),
        n2.ents_of(l2) == n.ents_of(l1).insert(
            offset(n->Index_0.children@, l1, pos) + p,
            (key, value),
        ),
{
    let cs = n->Index_0.children@;
    let keys = n->Index_0.keys@;
    let c = cs[pos];
    let ce = c.ents_of(l1);
    let e = ents_at(l2, ids_of(mid));
    assert(cs.subrange(pos, pos + 1) =~= seq![c]);
    crate::node::lemmas::lemma_ids_of_single(c);
    crate::node::lemmas::lemma_ids_of_split(cs, pos);
    lemma_siblings_frame(n, l1, l2, pos, pos + 1);
    lemma_nonempty(c, l1);
    lemma_inv_sorted(c, l1);
    crate::node::lemmas::lemma_child_ents(n, l1, pos);
    // the first entry is kept where a separator names it
    lemma_ents_split(mid, l2, 0);
    lemma_nonempty(mid[0], l2);
    assert(mid.take(0) =~= Seq::<BPNode<FANOUT, K>>::empty());
    assert(ids_of(mid.take(0)) == Seq::<usize>::empty());
    assert(e[0] == mid[0].ents_of(l2)[0]);
    if pos > 0 {
        assert(keys[pos - 1] == ce[0].0);
        if p == 0 {
            assert(e[0] == (key, value));
            assert(e[1] == ce[0]);
            assert(e[0].0.rank() < e[1].0.rank());
        }
        assert(e[0] == ce[0]);
        assert(keys.take(pos - 1).push(e[0].0) =~= keys.take(pos));
    }
    if pos < keys.len() {
        lemma_separator(n, l1, pos);
        let o1 = offset(cs, l1, pos + 1);
        if p < ce.len() {
            assert(e.last() == ce.last());
            assert(ce.last() == n.ents_of(l1)[o1 - 1]);
        } else {
            assert(e.last() == (key, value));
        }
    }
    assert(n2->Index_0.keys@ =~= replaced_keys(keys, pos, pos + 1, mid[0].ents_of(l2)[0].0, km));
    lemma_replace_children(n, l1, l2, pos, pos + 1, mid, km, n2);
    crate::node::lemmas::lemma_ents_at_single(l1, 0);
    assert(ents_at(l1, ids_of(cs.subrange(pos, pos + 1))) == ce);
    let a = ents_at(l1, ids_of(cs.take(pos)));
    let b = ents_at(l1, ids_of(cs.skip(pos + 1)));
    assert(a + ce.insert(p, (key, value)) + b =~= (a + ce + b).insert(a.len() + p, (key, value)));
}


/// Joining two well formed index nodes of equal height, whose entries ascend
/// across them, with the least key of the right one as the separator between
/// them, gives a well formed index node.
#[verifier::rlimit(60)]
#[verifier::spinoff_prover]
pub proof fn lemma_index_concat<const FANOUT: usize, K: BPKey, V>(
    ax: BPIndexNode<FANOUT, K>,
    bx: BPIndexNode<FANOUT, K>,
    sep: K,
    l: Seq<BPLeafNode<FANOUT, K, V>>,
    m: BPIndexNode<FANOUT, K>,
)
    requires
        3 <= FANOUT < usize::MAX,
        BPNode::<FANOUT, K>::Index(ax).inv(l),
        BPNode::<FANOUT, K>::Index(bx).inv(l),
        BPNode::<FANOUT, K>::Index(ax).height() == BPNode::<FANOUT, K>::Index(bx).height(),
        ents_sorted(
            BPNode::<FANOUT, K>::Index(ax).ents_of(l) + BPNode::<FANOUT, K>::Index(bx).ents_of(l),
        ),
        sep == BPNode::<FANOUT, K>::Index(bx).ents_of(l)[0].0,
        m.keys@ == ax.keys@ + seq![sep] + bx.keys@,
        m.children@ == ax.children@ + bx.children@,
        m.keys@.len() <= FANOUT,
    ensures
        BPNode::<FANOUT, K>::Index(m).inv(l),
        BPNode::<FANOUT, K>::Index(m).height() == BPNode::<FANOUT, K>::Index(ax).height(),
        BPNode::<FANOUT, K>::Index(m).ents_of(l) == BPNode::<FANOUT, K>::Index(ax).ents_of(l)
            + BPNode::<FANOUT, K>::Index(bx).ents_of(l),
        BPNode::<FANOUT, K>::Index(m).leaf_ids() == BPNode::<FANOUT, K>::Index(ax).leaf_ids()
            + BPNode::<FANOUT, K>::Index(bx).leaf_ids(),
{
    let a = ax.children@;
    let b = bx.children@;
    let mn = BPNode::<FANOUT, K>::Index(m);
    lemma_ids_of_concat(a, b);
    lemma_ents_at_concat(l, ids_of(a), ids_of(b));
    crate::node::lemmas::lemma_first_child(BPNode::<FANOUT, K>::Index(bx), l);
    assert forall|i: int| 0 <= i < m.children@.len() implies {
        &&& (#[trigger] m.children@[i]).inv(l)
        &&& m.children@[i].size_ok(l)
        &&& m.children@[i].height() == m.children@[0].height()
    } by {
        if i < a.len() {
            assert(m.children@[i] == a[i]);
        } else {
            assert(m.children@[i] == b[i - a.len()]);
        }
        assert(m.children@[0] == a[0]);
    }
    assert forall|i: int| 0 <= i < m.keys@.len() implies #[trigger] m.keys@[i]
        == m.children@[i + 1].ents_of(l)[0].0 by {
        if i < ax.keys@.len() {
            assert(m.keys@[i] == ax.keys@[i]);
            assert(m.children@[i + 1] == a[i + 1]);
        } else if i == ax.keys@.len() {
            assert(m.children@[i + 1] == b[0]);
        } else {
            assert(m.keys@[i] == bx.keys@[i - a.len()]);
            assert(m.children@[i + 1] == b[i + 1 - a.len()]);
        }
    }
    assert(m.children@[0] == a[0]);
}

/// The children of a well formed index node from `k` on, with their separators,
/// form a well formed index node holding the last entries of the node.
#[verifier::rlimit(60)]
#[verifier::spinoff_prover]
pub proof fn lemma_index_suffix<const FANOUT: usize, K: BPKey, V>(
    ix: BPIndexNode<FANOUT, K>,
    k: int,
    l: Seq<BPLeafNode<FANOUT, K, V>>,
    right: BPIndexNode<FANOUT, K>,
)
    requires
        3 <= FANOUT < usize::MAX,
        BPNode::<FANOUT, K>::Index(ix).inv(l),
        1 <= k < ix.children@.len(),
        right.keys@ == ix.keys@.skip(k),
        right.children@ == ix.children@.skip(k),
    ensures
        BPNode::<FANOUT, K>::Index(right).inv(l),
        BPNode::<FANOUT, K>::Index(right).height() == BPNode::<FANOUT, K>::Index(ix).height(),
        ents_at(l, ids_of(ix.children@.take(k))) + BPNode::<FANOUT, K>::Index(right).ents_of(l)
            == BPNode::<FANOUT, K>::Index(ix).ents_of(l),
        ids_of(ix.children@.take(k)) + BPNode::<FANOUT, K>::Index(right).leaf_ids()
            == BPNode::<FANOUT, K>::Index(ix).leaf_ids(),
        BPNode::<FANOUT, K>::Index(right).ents_of(l).len() > 0,
        ix.keys@[k - 1] == BPNode::<FANOUT, K>::Index(right).ents_of(l)[0].0,
{
    let n = BPNode::<FANOUT, K>::Index(ix);
    let cs = ix.children@;
    let right_n = BPNode::<FANOUT, K>::Index(right);
    assert(cs =~= cs.take(k) + cs.skip(k));
    lemma_ids_of_concat(cs.take(k), cs.skip(k));
    lemma_ents_at_concat(l, ids_of(cs.take(k)), ids_of(cs.skip(k)));
    lemma_inv_sorted(n, l);
    let es = n.ents_of(l);
    let e1 = ents_at(l, ids_of(cs.take(k)));
    let e2 = right_n.ents_of(l);
    assert(e2 =~= es.subrange(e1.len() as int, es.len() as int));
    lemma_ents_sorted_subrange(es, e1.len() as int, es.len() as int);
    assert forall|i: int| 0 <= i < right.keys@.len() implies #[trigger] right.keys@[i]
        == right.children@[i + 1].ents_of(l)[0].0 by {
        assert(right.children@[i + 1] == cs[i + k + 1]);
        assert(right.keys@[i] == ix.keys@[i + k]);
    }
    assert forall|i: int| 0 <= i < right.children@.len() implies {
        &&& (#[trigger] right.children@[i]).inv(l)
        &&& right.children@[i].size_ok(l)
        &&& right.children@[i].height() == right.children@[0].height()
    } by {
        assert(right.children@[i] == cs[i + k]);
        assert(right.children@[0] == cs[k]);
    }
    assert(right_n.inv(l));
    crate::node::lemmas::lemma_first_child(right_n, l);
    crate::node::lemmas::lemma_separator(n, l, k - 1);
    crate::node::lemmas::lemma_child_ents(n, l, k);
    assert(right.children@[0] == cs[k]);
}

/// The children of a well formed index node before `k`, with their separators,
/// form a well formed index node holding the first entries of the node; the
/// separator at `k - 1` is the least key after them.
#[verifier::rlimit(60)]
#[verifier::spinoff_prover]
pub proof fn lemma_index_prefix<const FANOUT: usize, K: BPKey, V>(
    ix: BPIndexNode<FANOUT, K>,
    k: int,
    l: Seq<BPLeafNode<FANOUT, K, V>>,
    left: BPIndexNode<FANOUT, K>,
)
    requires
        3 <= FANOUT < usize::MAX,
        BPNode::<FANOUT, K>::Index(ix).inv(l),
        1 <= k < ix.children@.len(),
        left.keys@ == ix.keys@.take(k - 1),
        left.children@ == ix.children@.take(k),
    ensures
        BPNode::<FANOUT, K>::Index(left).inv(l),
        BPNode::<FANOUT, K>::Index(left).height() == BPNode::<FANOUT, K>::Index(ix).height(),
        BPNode::<FANOUT, K>::Index(left).ents_of(l) + ents_at(l, ids_of(ix.children@.skip(k)))
            == BPNode::<FANOUT, K>::Index(ix).ents_of(l),
        BPNode::<FANOUT, K>::Index(left).leaf_ids() + ids_of(ix.children@.skip(k))
            == BPNode::<FANOUT, K>::Index(ix).leaf_ids(),
        ents_at(l, ids_of(ix.children@.skip(k))).len() > 0,
        ix.keys@[k - 1] == ents_at(l, ids_of(ix.children@.skip(k)))[0].0,
{
    let n = BPNode::<FANOUT, K>::Index(ix);
    let cs = ix.children@;
    let left_n = BPNode::<FANOUT, K>::Index(left);
    assert(cs =~= cs.take(k) + cs.skip(k));
    lemma_ids_of_concat(cs.take(k), cs.skip(k));
    lemma_ents_at_concat(l, ids_of(cs.take(k)), ids_of(cs.skip(k)));
    lemma_inv_sorted(n, l);
    let es = n.ents_of(l);
    let e1 = left_n.ents_of(l);
    assert(e1 =~= es.subrange(0, e1.len() as int));
    lemma_ents_sorted_subrange(es, 0, e1.len() as int);
    assert forall|i: int| 0 <= i < left.keys@.len() implies #[trigger] left.keys@[i]
        == left.children@[i + 1].ents_of(l)[0].0 by {
        assert(left.children@[i + 1] == cs[i + 1]);
    }
    assert forall|i: int| 0 <= i < left.children@.len() implies {
        &&& (#[trigger] left.children@[i]).inv(l)
        &&& left.children@[i].size_ok(l)
        &&& left.children@[i].height() == left.children@[0].height()
    } by {
        assert(left.children@[i] == cs[i]);
        assert(left.children@[0] == cs[0]);
    }
    assert(left_n.inv(l));
    crate::node::lemmas::lemma_separator(n, l, k - 1);
    crate::node::lemmas::lemma_child_ents(n, l, k);
    crate::node::lemmas::lemma_offset_mono(cs, l, k, cs.len() as int);
    assert(left.children@[0] == cs[0]);
}

/// A well formed node `g` of the children's height and within its bounds, whose
/// entries follow (or precede) those of a well formed index node, may be added as
/// its last (or first) child, with the least key of the node to its right as the
/// separator.
#[verifier::rlimit(60)]
#[verifier::spinoff_prover]
pub proof fn lemma_index_add_child<const FANOUT: usize, K: BPKey, V>(
    ax: BPIndexNode<FANOUT, K>,
    g: BPNode<FANOUT, K>,
    sep: K,
    at_end: bool,
    l: Seq<BPLeafNode<FANOUT, K, V>>,
    m: BPIndexNode<FANOUT, K>,
)
    requires
        3 <= FANOUT < usize::MAX,
        BPNode::<FANOUT, K>::Index(ax).inv(l),
        g.inv(l),
        g.size_ok(l),
        g.height() + 1 == BPNode::<FANOUT, K>::Index(ax).height(),
        at_end ==> ents_sorted(BPNode::<FANOUT, K>::Index(ax).ents_of(l) + g.ents_of(l)),
        !at_end ==> ents_sorted(g.ents_of(l) + BPNode::<FANOUT, K>::Index(ax).ents_of(l)),
        at_end ==> sep == g.ents_of(l)[0].0,
        !at_end ==> sep == BPNode::<FANOUT, K>::Index(ax).ents_of(l)[0].0,
        at_end ==> m.keys@ == ax.keys@.push(sep) && m.children@ == ax.children@.push(g),
        !at_end ==> m.keys@ == seq![sep] + ax.keys@ && m.children@ == seq![g] + ax.children@,
        ax.keys@.len() + 1 <= FANOUT,
    ensures
        BPNode::<FANOUT, K>::Index(m).inv(l),
        BPNode::<FANOUT, K>::Index(m).height() == BPNode::<FANOUT, K>::Index(ax).height(),
        at_end ==> BPNode::<FANOUT, K>::Index(m).ents_of(l) == BPNode::<FANOUT, K>::Index(
            ax,
        ).ents_of(l) + g.ents_of(l),
        !at_end ==> BPNode::<FANOUT, K>::Index(m).ents_of(l) == g.ents_of(l) + BPNode::<
            FANOUT,
            K,
        >::Index(ax).ents_of(l),
        at_end ==> BPNode::<FANOUT, K>::Index(m).leaf_ids() == BPNode::<FANOUT, K>::Index(
            ax,
        ).leaf_ids() + g.leaf_ids(),
        !at_end ==> BPNode::<FANOUT, K>::Index(m).leaf_ids() == g.leaf_ids() + BPNode::<
            FANOUT,
            K,
        >::Index(ax).leaf_ids(),
{
    let a = ax.children@;
    let ax_n = BPNode::<FANOUT, K>::Index(ax);
    crate::node::lemmas::lemma_ids_of_single(g);
    crate::node::lemmas::lemma_first_child(ax_n, l);
    if at_end {
        assert(m.children@ =~= a + seq![g]);
        lemma_ids_of_concat(a, seq![g]);
        lemma_ents_at_concat(l, ids_of(a), g.leaf_ids());
        assert forall|i: int| 0 <= i < m.children@.len() implies {
            &&& (#[trigger] m.children@[i]).inv(l)
            &&& m.children@[i].size_ok(l)
            &&& m.children@[i].height() == m.children@[0].height()
        } by {
            if i < a.len() {
                assert(m.children@[i] == a[i]);
            }
            assert(m.children@[0] == a[0]);
        }
        assert forall|i: int| 0 <= i < m.keys@.len() implies #[trigger] m.keys@[i]
            == m.children@[i + 1].ents_of(l)[0].0 by {
            if i < ax.keys@.len() {
                assert(m.keys@[i] == ax.keys@[i]);
                assert(m.children@[i + 1] == a[i + 1]);
            }
        }
        assert(m.children@[0] == a[0]);
    } else {
        assert(m.children@ =~= seq![g] + a);
        lemma_ids_of_concat(seq![g], a);
        lemma_ents_at_concat(l, g.leaf_ids(), ids_of(a));
        assert forall|i: int| 0 <= i < m.children@.len() implies {
            &&& (#[trigger] m.children@[i]).inv(l)
            &&& m.children@[i].size_ok(l)
            &&& m.children@[i].height() == m.children@[0].height()
        } by {
            if i > 0 {
                assert(m.children@[i] == a[i - 1]);
            }
            assert(m.children@[0] == g);
        }
        assert forall|i: int| 0 <= i < m.keys@.len() implies #[trigger] m.keys@[i]
            == m.children@[i + 1].ents_of(l)[0].0 by {
            if i > 0 {
                assert(m.keys@[i] == ax.keys@[i - 1]);
                assert(m.children@[i + 1] == a[i]);
            } else {
                assert(m.children@[1] == a[0]);
            }
        }
        assert(m.children@[0] == g);
    }
}

/// Entries without one of them still ascend.
pub proof fn lemma_ents_sorted_remove<K: BPKey, V>(s: Seq<(K, V)>, i: int)
    requires
        ents_sorted(s),
        0 <= i < s.len(),
    ensures
        ents_sorted(s.remove(i)),
{
    let t = s.remove(i);
    assert forall|a: int, b: int| 0 <= a < b < t.len() implies (#[trigger] t[a]).0.rank() < (
    #[trigger] t[b]).0.rank() by {
        let a2 = if a < i { a } else { a + 1 };
        let b2 = if b < i { b } else { b + 1 };
        assert(t[a] == s[a2] && t[b] == s[b2]);
    }
}

/// One step of removal at an index node: the run of children `lo..hi` was replaced
/// by `mid`, whose entries are those of the run without the one at `q`.
#[verifier::rlimit(80)]
#[verifier::spinoff_prover]
pub proof fn lemma_remove_step<const FANOUT: usize, K: BPKey, V>(
    n: BPNode<FANOUT, K>,
    l1: Seq<BPLeafNode<FANOUT, K, V>>,
    l2: Seq<BPLeafNode<FANOUT, K, V>>,
    lo: int,
    hi: int,
    mid: Seq<BPNode<FANOUT, K>>,
    km: Seq<K>,
    n2: BPNode<FANOUT, K>,
    q: int,
)
    requires
        3 <= FANOUT < usize::MAX,
        n is Index,
        n.inv(l1),
        n.leaf_ids().no_duplicates(),
        0 <= lo < hi <= n->Index_0.children@.len(),
        mid.len() >= 1,
        km.len() + 1 == mid.len(),
        forall|t: int|
            0 <= t < mid.len() ==> {
                &&& (#[trigger] mid[t]).inv(l2)
                &&& mid[t].size_ok(l2)
                &&& mid[t].height() == n->Index_0.children@[lo].height()
            },
        forall|t: int| 0 <= t < km.len() ==> #[trigger] km[t] == mid[t + 1].ents_of(l2)[0].0,
        0 <= q < ents_at(l1, ids_of(n->Index_0.children@.subrange(lo, hi))).len(),
        ents_at(l2, ids_of(mid)) == ents_at(l1, ids_of(n->Index_0.children@.subrange(lo, hi))).remove(q),
        forall|id: usize|
            id < l1.len() && !ids_of(n->Index_0.children@.subrange(lo, hi)).contains(id)
                ==> #[trigger] same_leaf(l1, l2, id),
        lo > 0 ==> n->Index_0.keys@[lo - 1].rank() <= mid[0].ents_of(l2)[0].0.rank(),
        n2 is Index,
        n2->Index_0.children@ == n->Index_0.children@.take(lo) + mid + n->Index_0.children@.skip(
            hi,
        ),
        n2->Index_0.keys@ == replaced_keys(
            n->Index_0.keys@,
            lo,
            hi,
            mid[0].ents_of(l2)[0].0,
            km,
        ),
        n2->Index_0.keys@.len() <= FANOUT,
    ensures
        n2.inv(l2),
        n2.leaf_ids() == ids_of(n->Index_0.children@.take(lo)) + ids_of(mid) + ids_of(
            n->Index_0.children@.skip(hi),
        ),
        n.leaf_ids() == ids_of(n->Index_0.children@.take(lo)) + ids_of(
            n->Index_0.children@.subrange(lo, hi),
        ) + ids_of(n->Index_0.children@.skip(hi)),
        n2.ents_of(l2) == n.ents_of(l1).remove(offset(n->Index_0.children@, l1, lo) + q),
        0 <= offset(n->Index_0.children@, l1, lo) + q < n.ents_of(l1).len(),
{
    let cs = n->Index_0.children@;
    let keys = n->Index_0.keys@;
    let run = ents_at(l1, ids_of(cs.subrange(lo, hi)));
    let e = ents_at(l2, ids_of(mid));
    lemma_siblings_frame(n, l1, l2, lo, hi);
    lemma_inv_sorted(n, l1);
    // the run and its place among the node's entries
    assert(cs =~= cs.take(lo) + cs.subrange(lo, hi) + cs.skip(hi));
    lemma_ids_of_concat(cs.take(lo) + cs.subrange(lo, hi), cs.skip(hi));
    lemma_ids_of_concat(cs.take(lo), cs.subrange(lo, hi));
    lemma_ents_at_concat(l1, ids_of(cs.take(lo)) + ids_of(cs.subrange(lo, hi)), ids_of(cs.skip(hi)));
    lemma_ents_at_concat(l1, ids_of(cs.take(lo)), ids_of(cs.subrange(lo, hi)));
    let a = ents_at(l1, ids_of(cs.take(lo)));
    let b = ents_at(l1, ids_of(cs.skip(hi)));
    let es = n.ents_of(l1);
    assert(es == a + run + b);
    assert(run =~= es.subrange(a.len() as int, (a.len() + run.len()) as int));
    lemma_ents_sorted_subrange(es, a.len() as int, (a.len() + run.len()) as int);
    lemma_ents_sorted_remove(run, q);
    lemma_ents_split(mid, l2, 0);
    lemma_nonempty(mid[0], l2);
    assert(e.len() > 0);
    if hi < cs.len() {
        lemma_separator(n, l1, hi - 1);
        assert(cs.take(hi) =~= cs.take(lo) + cs.subrange(lo, hi));
        lemma_ids_of_concat(cs.take(lo), cs.subrange(lo, hi));
        lemma_ents_at_concat(l1, ids_of(cs.take(lo)), ids_of(cs.subrange(lo, hi)));
        let last = if q < run.len() - 1 { run.len() - 1 } else { run.len() - 2 };
        assert(e.last() == run[last]);
        assert(run[last] == es[a.len() + last]);
    }
    assert forall|i: int|
        0 <= i < cs.len() && !(lo <= i < hi) implies #[trigger] cs[i].size_ok(l2) by {
    }
    lemma_replace_children(n, l1, l2, lo, hi, mid, km, n2);
    assert(a + run.remove(q) + b =~= (a + run + b).remove(a.len() + q));
}

} // verus!
