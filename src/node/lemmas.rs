use vstd::prelude::*;

use crate::key::{BPKey, sorted};
use crate::node::{BPNode, BPLeafNode, chain_ok, link_ok, ids_of, ents_at, ents_sorted, leaf_min, index_min};

verus! {

/// The leaf in slot `id` exists in both arenas and holds the same entries in each.
pub open spec fn same_leaf<const FANOUT: usize, K, V>(
    l1: Seq<BPLeafNode<FANOUT, K, V>>,
    l2: Seq<BPLeafNode<FANOUT, K, V>>,
    id: usize,
) -> bool {
    &&& id < l1.len()
    &&& id < l2.len()
    &&& l1[id as int].keys@ == l2[id as int].keys@
    &&& l1[id as int].values@ == l2[id as int].values@
}

/// Every slot in `ids` holds the same entries in both arenas.
pub open spec fn same_content<const FANOUT: usize, K, V>(
    l1: Seq<BPLeafNode<FANOUT, K, V>>,
    l2: Seq<BPLeafNode<FANOUT, K, V>>,
    ids: Seq<usize>,
) -> bool {
    forall|j: int| 0 <= j < ids.len() ==> same_leaf(l1, l2, #[trigger] ids[j])
}

pub proof fn lemma_ents_at_single<const FANOUT: usize, K: BPKey, V>(
    leaves: Seq<BPLeafNode<FANOUT, K, V>>,
    id: usize,
)
    ensures
        ents_at(leaves, seq![id]) == leaves[id as int].entries(),
{
    assert(seq![id].drop_last() =~= Seq::<usize>::empty());
    assert(seq![id].last() == id);
    assert(ents_at(leaves, Seq::<usize>::empty()) == Seq::<(K, V)>::empty());
    assert(Seq::<(K, V)>::empty() + leaves[id as int].entries() =~= leaves[id as int].entries());
}

pub proof fn lemma_ents_at_concat<const FANOUT: usize, K: BPKey, V>(
    leaves: Seq<BPLeafNode<FANOUT, K, V>>,
    a: Seq<usize>,
    b: Seq<usize>,
)
    ensures
        ents_at(leaves, a + b) == ents_at(leaves, a) + ents_at(leaves, b),
    decreases b.len(),
{
    if b.len() == 0 {
        assert(a + b =~= a);
        assert(ents_at(leaves, a) + ents_at(leaves, b) =~= ents_at(leaves, a));
    } else {
        lemma_ents_at_concat(leaves, a, b.drop_last());
        assert((a + b).drop_last() =~= a + b.drop_last());
        assert((a + b).last() == b.last());
        assert(ents_at(leaves, a) + ents_at(leaves, b) =~= ents_at(leaves, a) + ents_at(
            leaves,
            b.drop_last(),
        ) + leaves[b.last() as int].entries());
    }
}

pub proof fn lemma_ids_of_concat<const FANOUT: usize, K: BPKey>(
    a: Seq<BPNode<FANOUT, K>>,
    b: Seq<BPNode<FANOUT, K>>,
)
    ensures
        ids_of(a + b) == ids_of(a) + ids_of(b),
    decreases b.len(),
{
    if b.len() == 0 {
        assert(a + b =~= a);
        assert(ids_of(a) + ids_of(b) =~= ids_of(a));
    } else {
        lemma_ids_of_concat(a, b.drop_last());
        assert((a + b).drop_last() =~= a + b.drop_last());
        assert((a + b).last() == b.last());
        assert(ids_of(a) + ids_of(b) =~= ids_of(a) + ids_of(b.drop_last())
            + b.last().leaf_ids());
    }
}

pub proof fn lemma_ids_of_single<const FANOUT: usize, K: BPKey>(c: BPNode<FANOUT, K>)
    ensures
        ids_of(seq![c]) == c.leaf_ids(),
{
    assert(seq![c].drop_last() =~= Seq::<BPNode<FANOUT, K>>::empty());
    assert(seq![c].last() == c);
    assert(ids_of(Seq::<BPNode<FANOUT, K>>::empty()) == Seq::<usize>::empty());
    assert(Seq::<usize>::empty() + c.leaf_ids() =~= c.leaf_ids());
}

/// The leaves below `cs` are those below the children before `i`, those below
/// `cs[i]`, and those below the children after it.
pub proof fn lemma_ids_of_split<const FANOUT: usize, K: BPKey>(cs: Seq<BPNode<FANOUT, K>>, i: int)
    requires
        0 <= i < cs.len(),
    ensures
        ids_of(cs) == ids_of(cs.take(i)) + cs[i].leaf_ids() + ids_of(cs.skip(i + 1)),
{
    assert(cs =~= cs.take(i) + seq![cs[i]] + cs.skip(i + 1));
    lemma_ids_of_concat(cs.take(i) + seq![cs[i]], cs.skip(i + 1));
    lemma_ids_of_concat(cs.take(i), seq![cs[i]]);
    lemma_ids_of_single(cs[i]);
}

/// The entries below a run of nodes, split around node `i`.
pub proof fn lemma_ents_split<const FANOUT: usize, K: BPKey, V>(
    cs: Seq<BPNode<FANOUT, K>>,
    leaves: Seq<BPLeafNode<FANOUT, K, V>>,
    i: int,
)
    requires
        0 <= i < cs.len(),
    ensures
        ents_at(leaves, ids_of(cs)) == ents_at(leaves, ids_of(cs.take(i))) + cs[i].ents_of(leaves)
            + ents_at(leaves, ids_of(cs.skip(i + 1))),
{
    lemma_ids_of_split(cs, i);
    lemma_ents_at_concat(leaves, ids_of(cs.take(i)) + cs[i].leaf_ids(), ids_of(cs.skip(i + 1)));
    lemma_ents_at_concat(leaves, ids_of(cs.take(i)), cs[i].leaf_ids());
}

pub proof fn lemma_same_content_piece<const FANOUT: usize, K, V>(
    l1: Seq<BPLeafNode<FANOUT, K, V>>,
    l2: Seq<BPLeafNode<FANOUT, K, V>>,
    a: Seq<usize>,
    b: Seq<usize>,
    c: Seq<usize>,
)
    requires
        same_content(l1, l2, a + b + c),
    ensures
        same_content(l1, l2, b),
        same_content(l1, l2, a),
        same_content(l1, l2, c),
{
    let s = a + b + c;
    assert forall|j: int| 0 <= j < b.len() implies same_leaf(l1, l2, #[trigger] b[j]) by {
        assert(s[a.len() + j] == b[j]);
    }
    assert forall|j: int| 0 <= j < a.len() implies same_leaf(l1, l2, #[trigger] a[j]) by {
        assert(s[j] == a[j]);
    }
    assert forall|j: int| 0 <= j < c.len() implies same_leaf(l1, l2, #[trigger] c[j]) by {
        assert(s[a.len() + b.len() + j] == c[j]);
    }
}

pub proof fn lemma_ents_at_frame<const FANOUT: usize, K: BPKey, V>(
    l1: Seq<BPLeafNode<FANOUT, K, V>>,
    l2: Seq<BPLeafNode<FANOUT, K, V>>,
    ids: Seq<usize>,
)
    requires
        same_content(l1, l2, ids),
    ensures
        ents_at(l1, ids) == ents_at(l2, ids),
    decreases ids.len(),
{
    if ids.len() > 0 {
        assert(same_leaf(l1, l2, ids[ids.len() - 1]));
        assert(l1[ids.last() as int].entries() =~= l2[ids.last() as int].entries());
        lemma_same_content_piece(l1, l2, ids.drop_last(), seq![ids.last()], Seq::empty());
        assert(ids.drop_last() + seq![ids.last()] + Seq::<usize>::empty() =~= ids);
        lemma_ents_at_frame(l1, l2, ids.drop_last());
    }
}

/// A subtree depends only on the entries of its own leaves.
pub proof fn lemma_inv_frame<const FANOUT: usize, K: BPKey, V>(
    n: BPNode<FANOUT, K>,
    l1: Seq<BPLeafNode<FANOUT, K, V>>,
    l2: Seq<BPLeafNode<FANOUT, K, V>>,
)
    requires
        n.inv(l1),
        same_content(l1, l2, n.leaf_ids()),
    ensures
        n.inv(l2),
        n.ents_of(l2) == n.ents_of(l1),
        n.size(l2) == n.size(l1),
        n.size_ok(l2) == n.size_ok(l1),
    decreases n,
{
    lemma_ents_at_frame(l1, l2, n.leaf_ids());
    match n {
        BPNode::Leaf(id) => {
            assert(n.leaf_ids()[0] == id);
            assert(same_leaf(l1, l2, id));
        },
        BPNode::Index(ix) => {
            let cs = ix.children@;
            assert forall|i: int| 0 <= i < cs.len() implies {
                &&& (#[trigger] cs[i]).inv(l2)
                &&& cs[i].ents_of(l2) == cs[i].ents_of(l1)
                &&& cs[i].size(l2) == cs[i].size(l1)
                &&& cs[i].size_ok(l2) == cs[i].size_ok(l1)
            } by {
                lemma_ids_of_split(cs, i);
                lemma_same_content_piece(
                    l1,
                    l2,
                    ids_of(cs.take(i)),
                    cs[i].leaf_ids(),
                    ids_of(cs.skip(i + 1)),
                );
                lemma_inv_frame(cs[i], l1, l2);
            }
            assert forall|i: int| 0 <= i < ix.keys@.len() implies #[trigger] ix.keys@[i]
                == cs[i + 1].ents_of(l2)[0].0 by {
                assert(cs[i + 1].ents_of(l2) == cs[i + 1].ents_of(l1));
            }
        },
    }
}

/// A subtree within its occupancy bounds holds at least one key.
pub proof fn lemma_nonempty<const FANOUT: usize, K: BPKey, V>(
    n: BPNode<FANOUT, K>,
    leaves: Seq<BPLeafNode<FANOUT, K, V>>,
)
    requires
        FANOUT >= 3,
        n.inv(leaves),
        n.size_ok(leaves) || (n is Index && n.size(leaves) >= 1),
    ensures
        n.ents_of(leaves).len() > 0,
    decreases n,
{
    match n {
        BPNode::Leaf(id) => {
            lemma_ents_at_single(leaves, id);
        },
        BPNode::Index(ix) => {
            let cs = ix.children@;
            lemma_ents_split(cs, leaves, 0);
            lemma_nonempty(cs[0], leaves);
        },
    }
}

pub proof fn lemma_ents_sorted_concat<K: BPKey, V>(a: Seq<(K, V)>, b: Seq<(K, V)>)
    requires
        ents_sorted(a),
        ents_sorted(b),
        a.len() > 0 && b.len() > 0 ==> a.last().0.rank() < b[0].0.rank(),
    ensures
        ents_sorted(a + b),
{
    let s = a + b;
    assert forall|i: int, j: int| 0 <= i < j < s.len() implies (#[trigger] s[i]).0.rank() < (
    #[trigger] s[j]).0.rank() by {
        if i < a.len() && j >= a.len() {
            assert(s[i] == a[i]);
            assert(s[j] == b[j - a.len()]);
            if i < a.len() - 1 {
                assert(a[i].0.rank() < a[a.len() - 1].0.rank());
            }
            if j - a.len() > 0 {
                assert(b[0].0.rank() < b[j - a.len()].0.rank());
            }
        } else if i < a.len() {
            assert(s[i] == a[i] && s[j] == a[j]);
        } else {
            assert(s[i] == b[i - a.len()] && s[j] == b[j - a.len()]);
        }
    }
}

pub proof fn lemma_ents_sorted_subrange<K: BPKey, V>(s: Seq<(K, V)>, i: int, j: int)
    requires
        ents_sorted(s),
        0 <= i <= j <= s.len(),
    ensures
        ents_sorted(s.subrange(i, j)),
{
    let t = s.subrange(i, j);
    assert forall|a: int, b: int| 0 <= a < b < t.len() implies (#[trigger] t[a]).0.rank() < (
    #[trigger] t[b]).0.rank() by {
        assert(t[a] == s[i + a] && t[b] == s[i + b]);
    }
}

/// Where the entries of child `i` start among the entries of the run `cs`.
pub open spec fn offset<const FANOUT: usize, K: BPKey, V>(
    cs: Seq<BPNode<FANOUT, K>>,
    leaves: Seq<BPLeafNode<FANOUT, K, V>>,
    i: int,
) -> int {
    ents_at(leaves, ids_of(cs.take(i))).len() as int
}

/// Offsets grow along the run.
pub proof fn lemma_offset_mono<const FANOUT: usize, K: BPKey, V>(
    cs: Seq<BPNode<FANOUT, K>>,
    leaves: Seq<BPLeafNode<FANOUT, K, V>>,
    i: int,
    j: int,
)
    requires
        0 <= i <= j <= cs.len(),
    ensures
        offset(cs, leaves, i) <= offset(cs, leaves, j),
        offset(cs, leaves, cs.len() as int) == ents_at(leaves, ids_of(cs)).len(),
{
    assert(cs.take(j) =~= cs.take(i) + cs.subrange(i, j));
    lemma_ids_of_concat(cs.take(i), cs.subrange(i, j));
    lemma_ents_at_concat(leaves, ids_of(cs.take(i)), ids_of(cs.subrange(i, j)));
    assert(cs.take(cs.len() as int) =~= cs);
}

/// The entries of child `i` of an index node are the piece of the node's entries
/// between offsets `i` and `i + 1`.
pub proof fn lemma_child_ents<const FANOUT: usize, K: BPKey, V>(
    n: BPNode<FANOUT, K>,
    leaves: Seq<BPLeafNode<FANOUT, K, V>>,
    i: int,
)
    requires
        n is Index,
        n.inv(leaves),
        0 <= i < n->Index_0.children@.len(),
    ensures
        ({
            let cs = n->Index_0.children@;
            let es = n.ents_of(leaves);
            &&& es == ents_at(leaves, ids_of(cs.take(i))) + cs[i].ents_of(leaves) + ents_at(
                leaves,
                ids_of(cs.skip(i + 1)),
            )
            &&& offset(cs, leaves, i + 1) == offset(cs, leaves, i) + cs[i].ents_of(leaves).len()
            &&& offset(cs, leaves, i + 1) <= es.len()
            &&& cs[i].ents_of(leaves) == es.subrange(
                offset(cs, leaves, i),
                offset(cs, leaves, i + 1),
            )
            &&& ents_sorted(cs[i].ents_of(leaves))
        }),
{
    let cs = n->Index_0.children@;
    lemma_ents_split(cs, leaves, i);
    let a = ents_at(leaves, ids_of(cs.take(i)));
    let b = cs[i].ents_of(leaves);
    let c = ents_at(leaves, ids_of(cs.skip(i + 1)));
    assert(b =~= (a + b + c).subrange(a.len() as int, (a.len() + b.len()) as int));
    lemma_ents_sorted_subrange(a + b + c, a.len() as int, (a.len() + b.len()) as int);
    assert(cs.take(i + 1) =~= cs.take(i) + seq![cs[i]]);
    lemma_ids_of_concat(cs.take(i), seq![cs[i]]);
    lemma_ids_of_single(cs[i]);
    lemma_ents_at_concat(leaves, ids_of(cs.take(i)), cs[i].leaf_ids());
}

/// Separator `i` of a well formed index node is the key at offset `i + 1`: every
/// entry before that offset has a smaller key, every entry from it on a key at least
/// as large.
pub proof fn lemma_separator<const FANOUT: usize, K: BPKey, V>(
    n: BPNode<FANOUT, K>,
    leaves: Seq<BPLeafNode<FANOUT, K, V>>,
    i: int,
)
    requires
        FANOUT >= 3,
        n is Index,
        n.inv(leaves),
        0 <= i < n->Index_0.keys@.len(),
    ensures
        ({
            let cs = n->Index_0.children@;
            let es = n.ents_of(leaves);
            let o = offset(cs, leaves, i + 1);
            &&& 0 < o < es.len()
            &&& es[o].0 == n->Index_0.keys@[i]
            &&& forall|j: int| 0 <= j < o ==> (#[trigger] es[j]).0.rank() < n->Index_0.keys@[i].rank()
            &&& forall|j: int|
                o <= j < es.len() ==> n->Index_0.keys@[i].rank() <= (#[trigger] es[j]).0.rank()
        }),
{
    let cs = n->Index_0.children@;
    let es = n.ents_of(leaves);
    lemma_child_ents(n, leaves, i + 1);
    lemma_child_ents(n, leaves, i);
    lemma_nonempty(cs[i + 1], leaves);
    lemma_nonempty(cs[i], leaves);
    lemma_offset_mono(cs, leaves, 0, i);
    let o = offset(cs, leaves, i + 1);
    assert(es[o] == cs[i + 1].ents_of(leaves)[0]);
}

/// A key that lies between the separators around child `pos` can only stand in
/// that child.
pub proof fn lemma_route<const FANOUT: usize, K: BPKey, V>(
    n: BPNode<FANOUT, K>,
    leaves: Seq<BPLeafNode<FANOUT, K, V>>,
    key: K,
    pos: int,
)
    requires
        FANOUT >= 3,
        n is Index,
        n.inv(leaves),
        0 <= pos < n->Index_0.children@.len(),
        pos > 0 ==> n->Index_0.keys@[pos - 1].rank() <= key.rank(),
        pos < n->Index_0.keys@.len() ==> key.rank() < n->Index_0.keys@[pos].rank(),
    ensures
        forall|j: int|
            0 <= j < n.ents_of(leaves).len() && (#[trigger] n.ents_of(leaves)[j]).0.rank()
                == key.rank() ==> offset(n->Index_0.children@, leaves, pos) <= j < offset(
                n->Index_0.children@,
                leaves,
                pos + 1,
            ),
{
    let cs = n->Index_0.children@;
    let es = n.ents_of(leaves);
    lemma_child_ents(n, leaves, pos);
    lemma_offset_mono(cs, leaves, pos + 1, cs.len() as int);
    if pos > 0 {
        lemma_separator(n, leaves, pos - 1);
    }
    if pos < n->Index_0.keys@.len() {
        lemma_separator(n, leaves, pos);
    }
    assert(cs.take(0) =~= Seq::<BPNode<FANOUT, K>>::empty());
    assert(ids_of(cs.take(0)) == Seq::<usize>::empty());
}

/// The separators of a well formed index node ascend.
pub proof fn lemma_separators_sorted<const FANOUT: usize, K: BPKey, V>(
    n: BPNode<FANOUT, K>,
    leaves: Seq<BPLeafNode<FANOUT, K, V>>,
)
    requires
        3 <= FANOUT < usize::MAX,
        n is Index,
        n.inv(leaves),
    ensures
        sorted(n->Index_0.keys@),
        n->Index_0.keys@.len() < usize::MAX,
{
    let ks = n->Index_0.keys@;
    let cs = n->Index_0.children@;
    assert forall|a: int, b: int| 0 <= a < b < ks.len() implies (#[trigger] ks[a]).rank() < (
    #[trigger] ks[b]).rank() by {
        lemma_separator(n, leaves, a);
        lemma_separator(n, leaves, b);
        lemma_child_ents(n, leaves, a + 1);
        lemma_nonempty(cs[a + 1], leaves);
        lemma_offset_mono(cs, leaves, a + 2, b + 1);
    }
}

/// The first entry below a well formed index node is the first entry below its
/// first child.
pub proof fn lemma_first_child<const FANOUT: usize, K: BPKey, V>(
    n: BPNode<FANOUT, K>,
    leaves: Seq<BPLeafNode<FANOUT, K, V>>,
)
    requires
        FANOUT >= 3,
        n is Index,
        n.inv(leaves),
    ensures
        n->Index_0.children@[0].ents_of(leaves).len() > 0,
        n.ents_of(leaves).len() > 0,
        n.ents_of(leaves)[0] == n->Index_0.children@[0].ents_of(leaves)[0],
{
    let cs = n->Index_0.children@;
    lemma_child_ents(n, leaves, 0);
    lemma_nonempty(cs[0], leaves);
    assert(cs.take(0) =~= Seq::<BPNode<FANOUT, K>>::empty());
    assert(ids_of(cs.take(0)) == Seq::<usize>::empty());
}

/// Every slot named below `cs` lies in the arena, where each node of `cs` names
/// slots in the arena only.
pub proof fn lemma_ids_of_range<const FANOUT: usize, K: BPKey>(cs: Seq<BPNode<FANOUT, K>>, n: int)
    requires
        forall|i: int, j: int|
            0 <= i < cs.len() && 0 <= j < cs[i].leaf_ids().len() ==> #[trigger] cs[i].leaf_ids()[j]
                < n,
    ensures
        forall|j: int| 0 <= j < ids_of(cs).len() ==> #[trigger] ids_of(cs)[j] < n,
    decreases cs.len(),
{
    if cs.len() > 0 {
        lemma_ids_of_range(cs.drop_last(), n);
        let a = ids_of(cs.drop_last());
        let b = cs.last().leaf_ids();
        assert forall|j: int| 0 <= j < ids_of(cs).len() implies #[trigger] ids_of(cs)[j] < n by {
            if j >= a.len() {
                assert(ids_of(cs)[j] == b[j - a.len()]);
                assert(cs[cs.len() - 1].leaf_ids()[j - a.len()] < n);
            } else {
                assert(ids_of(cs)[j] == a[j]);
            }
        }
    }
}

/// A well formed subtree names arena slots only.
pub proof fn lemma_ids_in_range<const FANOUT: usize, K: BPKey, V>(
    n: BPNode<FANOUT, K>,
    leaves: Seq<BPLeafNode<FANOUT, K, V>>,
)
    requires
        n.inv(leaves),
    ensures
        forall|j: int| 0 <= j < n.leaf_ids().len() ==> #[trigger] n.leaf_ids()[j] < leaves.len(),
    decreases n,
{
    match n {
        BPNode::Leaf(id) => {
            assert(n.leaf_ids() == seq![id]);
            assert(n.leaf_ids()[0] == id);
        },
        BPNode::Index(ix) => {
            let cs = ix.children@;
            assert forall|i: int, j: int|
                0 <= i < cs.len() && 0 <= j < cs[i].leaf_ids().len() implies #[trigger] cs[i].leaf_ids()[j]
                < leaves.len() by {
                lemma_ids_in_range(cs[i], leaves);
            }
            lemma_ids_of_range(cs, leaves.len() as int);
            assert(n.leaf_ids() == ids_of(cs));
        },
    }
}

/// The entries below a well formed subtree ascend.
pub proof fn lemma_inv_sorted<const FANOUT: usize, K: BPKey, V>(
    n: BPNode<FANOUT, K>,
    leaves: Seq<BPLeafNode<FANOUT, K, V>>,
)
    requires
        n.inv(leaves),
    ensures
        ents_sorted(n.ents_of(leaves)),
{
    if let BPNode::Leaf(id) = n {
        lemma_ents_at_single(leaves, id);
        let e = leaves[id as int].entries();
        assert forall|i: int, j: int| 0 <= i < j < e.len() implies (#[trigger] e[i]).0.rank() < (
        #[trigger] e[j]).0.rank() by {
            assert(e[i].0 == leaves[id as int].keys@[i]);
            assert(e[j].0 == leaves[id as int].keys@[j]);
        }
    }
}

/// Leaves whose links are unchanged still form the chain.
pub proof fn lemma_chain_same_links<const FANOUT: usize, K, V>(
    ids: Seq<usize>,
    l1: Seq<BPLeafNode<FANOUT, K, V>>,
    l2: Seq<BPLeafNode<FANOUT, K, V>>,
)
    requires
        chain_ok(ids, l1),
        forall|j: int|
            0 <= j < ids.len() ==> #[trigger] ids[j] < l2.len() && l2[ids[j] as int].prev == l1[ids[j] as int].prev
                && l2[ids[j] as int].next == l1[ids[j] as int].next,
    ensures
        chain_ok(ids, l2),
{
    assert forall|j: int| 0 <= j < ids.len() implies #[trigger] link_ok(ids, l2, j) by {
        assert(link_ok(ids, l1, j));
        assert(ids[j] < l2.len());
    }
}

/// A leaf split in two, with the new leaf linked in right after the old one.
pub proof fn lemma_chain_split<const FANOUT: usize, K, V>(
    p: Seq<usize>,
    a: usize,
    s: Seq<usize>,
    l1: Seq<BPLeafNode<FANOUT, K, V>>,
    l2: Seq<BPLeafNode<FANOUT, K, V>>,
)
    requires
        chain_ok(p + seq![a] + s, l1),
        (p + seq![a] + s).no_duplicates(),
        l2.len() == l1.len() + 1,
        l2[a as int].prev == l1[a as int].prev,
        l2[a as int].next == Some(l1.len() as usize),
        l2[l1.len() as int].prev == Some(a),
        l2[l1.len() as int].next == l1[a as int].next,
        s.len() > 0 ==> l2[s[0] as int].prev == Some(l1.len() as usize) && l2[s[0] as int].next
            == l1[s[0] as int].next,
        forall|id: int|
            0 <= id < l1.len() && id != a && (s.len() == 0 || id != s[0]) ==> #[trigger] l2[id].prev
                == l1[id].prev && l2[id].next == l1[id].next,
        l1.len() < usize::MAX,
    ensures
        chain_ok(p + seq![a, l1.len() as usize] + s, l2),
        (p + seq![a, l1.len() as usize] + s).no_duplicates(),
{
    let b = l1.len() as usize;
    let o = p + seq![a] + s;
    let q = p.len() as int;
    let t = o.insert(q + 1, b);
    assert(t =~= p + seq![a, b] + s);
    assert(o[q] == a);
    assert forall|j: int| 0 <= j < o.len() implies #[trigger] o[j] < l1.len() by {
        assert(link_ok(o, l1, j));
    }
    assert forall|j: int| 0 <= j < t.len() implies #[trigger] link_ok(t, l2, j) by {
        if j < q || j > q + 2 {
            let k = if j < q { j } else { j - 1 };
            assert(o[k] < l1.len());
            assert(o[k] != a);
            if q + 1 < o.len() {
                assert(o[k] != o[q + 1]);
                assert(s[0] == o[q + 1]);
            }
            lemma_chain_insert_far(o, q, b, l1, l2, j);
        } else {
            if q + 1 < o.len() {
                assert(s[0] == o[q + 1]);
                assert(o[q + 1] < l1.len());
            }
            lemma_chain_insert_near(o, q, b, l1, l2, j);
        }
    }
    lemma_split_no_dup(p, a, s, b);
}

proof fn lemma_chain_insert_far<const FANOUT: usize, K, V>(
    o: Seq<usize>,
    q: int,
    b: usize,
    l1: Seq<BPLeafNode<FANOUT, K, V>>,
    l2: Seq<BPLeafNode<FANOUT, K, V>>,
    j: int,
)
    requires
        chain_ok(o, l1),
        0 <= q < o.len(),
        0 <= j <= o.len(),
        j < q || j > q + 2,
        ({
            let k = if j < q { j } else { j - 1 };
            &&& l2[o[k] as int].prev == l1[o[k] as int].prev
            &&& l2[o[k] as int].next == l1[o[k] as int].next
            &&& o[k] < l2.len()
        }),
    ensures
        link_ok(o.insert(q + 1, b), l2, j),
{
    let k = if j < q { j } else { j - 1 };
    assert(link_ok(o, l1, k));
}

proof fn lemma_chain_insert_near<const FANOUT: usize, K, V>(
    o: Seq<usize>,
    q: int,
    b: usize,
    l1: Seq<BPLeafNode<FANOUT, K, V>>,
    l2: Seq<BPLeafNode<FANOUT, K, V>>,
    j: int,
)
    requires
        chain_ok(o, l1),
        0 <= q < o.len(),
        q <= j <= q + 2,
        j <= o.len(),
        b == l1.len(),
        l2.len() == l1.len() + 1,
        l2[o[q] as int].prev == l1[o[q] as int].prev,
        l2[o[q] as int].next == Some(b),
        l2[b as int].prev == Some(o[q]),
        l2[b as int].next == l1[o[q] as int].next,
        q + 1 < o.len() ==> l2[o[q + 1] as int].prev == Some(b) && l2[o[q + 1] as int].next
            == l1[o[q + 1] as int].next,
    ensures
        link_ok(o.insert(q + 1, b), l2, j),
{
    assert(link_ok(o, l1, q));
    if q + 1 < o.len() {
        assert(link_ok(o, l1, q + 1));
    }
}

pub proof fn lemma_split_no_dup(p: Seq<usize>, a: usize, s: Seq<usize>, b: usize)
    requires
        (p + seq![a] + s).no_duplicates(),
        forall|j: int| 0 <= j < (p + seq![a] + s).len() ==> #[trigger] (p + seq![a] + s)[j] < b,
    ensures
        (p + seq![a, b] + s).no_duplicates(),
{
    let o = p + seq![a] + s;
    let t = p + seq![a, b] + s;
    assert forall|i: int, j: int| 0 <= i < t.len() && 0 <= j < t.len() && i != j implies t[i]
        != t[j] by {
        let oi = if i <= p.len() { i } else if i == p.len() + 1 { -1 } else { i - 1 };
        let oj = if j <= p.len() { j } else if j == p.len() + 1 { -1 } else { j - 1 };
        if oi >= 0 && oj >= 0 {
            assert(t[i] == o[oi]);
            assert(t[j] == o[oj]);
        } else if oi >= 0 {
            assert(t[i] == o[oi]);
            assert(o[oi] < b);
        } else if oj >= 0 {
            assert(t[j] == o[oj]);
            assert(o[oj] < b);
        }
    }
}

/// A leaf merged into the one before it, and unlinked from the chain.
pub proof fn lemma_chain_merge<const FANOUT: usize, K, V>(
    p: Seq<usize>,
    x: usize,
    y: usize,
    s: Seq<usize>,
    l1: Seq<BPLeafNode<FANOUT, K, V>>,
    l2: Seq<BPLeafNode<FANOUT, K, V>>,
)
    requires
        chain_ok(p + seq![x, y] + s, l1),
        (p + seq![x, y] + s).no_duplicates(),
        l2.len() == l1.len(),
        l2[x as int].prev == l1[x as int].prev,
        l2[x as int].next == l1[y as int].next,
        s.len() > 0 ==> l2[s[0] as int].prev == Some(x) && l2[s[0] as int].next == l1[s[0] as int].next,
        forall|id: int|
            0 <= id < l1.len() && id != x && id != y && (s.len() == 0 || id != s[0])
                ==> #[trigger] l2[id].prev == l1[id].prev && l2[id].next == l1[id].next,
    ensures
        chain_ok(p + seq![x] + s, l2),
        (p + seq![x] + s).no_duplicates(),
{
    let t = p + seq![x, y] + s;
    let o = p + seq![x] + s;
    let q = p.len() as int;
    assert(o =~= t.remove(q + 1));
    assert(t[q] == x && t[q + 1] == y);
    assert forall|j: int| 0 <= j < o.len() implies #[trigger] link_ok(o, l2, j) by {
        if j < q || j > q + 1 {
            let k = if j < q { j } else { j + 1 };
            assert(t[k] == o[j]);
            assert(link_ok(t, l1, k));
            assert(t[k] != x && t[k] != y);
            if s.len() > 0 {
                assert(t[q + 2] == s[0]);
                assert(t[k] != s[0]);
            }
            lemma_chain_remove_far(t, q, l1, l2, j);
        } else {
            assert(link_ok(t, l1, q));
            assert(link_ok(t, l1, q + 1));
            if q + 2 < t.len() {
                assert(t[q + 2] == s[0]);
                assert(link_ok(t, l1, q + 2));
            }
            lemma_chain_remove_near(t, q, l1, l2, j);
        }
    }
    assert forall|i: int, j: int| 0 <= i < o.len() && 0 <= j < o.len() && i != j implies o[i]
        != o[j] by {
        let i2 = if i <= q { i } else { i + 1 };
        let j2 = if j <= q { j } else { j + 1 };
        assert(o[i] == t[i2] && o[j] == t[j2]);
    }
}

proof fn lemma_chain_remove_far<const FANOUT: usize, K, V>(
    t: Seq<usize>,
    q: int,
    l1: Seq<BPLeafNode<FANOUT, K, V>>,
    l2: Seq<BPLeafNode<FANOUT, K, V>>,
    j: int,
)
    requires
        0 <= q && q + 1 < t.len(),
        0 <= j < t.len() - 1,
        j < q || j > q + 1,
        ({
            let k = if j < q { j } else { j + 1 };
            &&& link_ok(t, l1, k)
            &&& l2[t[k] as int].prev == l1[t[k] as int].prev
            &&& l2[t[k] as int].next == l1[t[k] as int].next
            &&& l2.len() == l1.len()
        }),
    ensures
        link_ok(t.remove(q + 1), l2, j),
{
}

proof fn lemma_chain_remove_near<const FANOUT: usize, K, V>(
    t: Seq<usize>,
    q: int,
    l1: Seq<BPLeafNode<FANOUT, K, V>>,
    l2: Seq<BPLeafNode<FANOUT, K, V>>,
    j: int,
)
    requires
        0 <= q && q + 1 < t.len(),
        q <= j <= q + 1,
        j < t.len() - 1,
        link_ok(t, l1, q),
        link_ok(t, l1, q + 1),
        q + 2 < t.len() ==> link_ok(t, l1, q + 2),
        l2.len() == l1.len(),
        l2[t[q] as int].prev == l1[t[q] as int].prev,
        l2[t[q] as int].next == l1[t[q + 1] as int].next,
        q + 2 < t.len() ==> l2[t[q + 2] as int].prev == Some(t[q]) && l2[t[q + 2] as int].next
            == l1[t[q + 2] as int].next,
    ensures
        link_ok(t.remove(q + 1), l2, j),
{
}

/// A well formed subtree has a leaf.
pub proof fn lemma_nonempty_ids<const FANOUT: usize, K: BPKey, V>(
    n: BPNode<FANOUT, K>,
    leaves: Seq<BPLeafNode<FANOUT, K, V>>,
)
    requires
        n.inv(leaves),
    ensures
        n.leaf_ids().len() > 0,
    decreases n,
{
    if let BPNode::Index(ix) = n {
        lemma_ids_of_split(ix.children@, 0);
        lemma_nonempty_ids(ix.children@[0], leaves);
    }
}

/// A subtree whose index nodes have two children at least has more leaves than
/// its height.
pub proof fn lemma_height_below_leaves<const FANOUT: usize, K: BPKey, V>(
    n: BPNode<FANOUT, K>,
    leaves: Seq<BPLeafNode<FANOUT, K, V>>,
)
    requires
        3 <= FANOUT,
        n.inv(leaves),
        n is Index ==> n.size(leaves) >= 2,
    ensures
        n.leaf_ids().len() >= n.height() + 1,
    decreases n,
{
    if let BPNode::Index(ix) = n {
        let cs = ix.children@;
        lemma_ids_of_split(cs, 0);
        assert(cs.skip(1)[0] == cs[1]);
        lemma_ids_of_split(cs.skip(1), 0);
        lemma_nonempty_ids(cs[1], leaves);
        lemma_height_below_leaves(cs[0], leaves);
    }
}

/// Distinct slots below `bound` number `bound` at most.
pub proof fn lemma_distinct_below(s: Seq<usize>, bound: int)
    requires
        s.no_duplicates(),
        0 <= bound <= usize::MAX,
        forall|j: int| 0 <= j < s.len() ==> (#[trigger] s[j]) < bound,
    ensures
        s.len() <= bound,
    decreases bound,
{
    if bound <= 0 {
        if s.len() > 0 {
            assert(s[0] < bound);
            assert(s[0] >= 0);
        }
        assert(s.len() == 0);
    } else if s.contains((bound - 1) as usize) {
        let k = choose|k: int| 0 <= k < s.len() && s[k] == (bound - 1) as usize;
        let t = s.remove(k);
        assert forall|j: int| 0 <= j < t.len() implies (#[trigger] t[j]) < bound - 1 by {
            let j2 = if j < k { j } else { j + 1 };
            assert(t[j] == s[j2]);
        }
        assert forall|a: int, b: int| 0 <= a < t.len() && 0 <= b < t.len() && a != b implies t[a]
            != t[b] by {
            let a2 = if a < k { a } else { a + 1 };
            let b2 = if b < k { b } else { b + 1 };
            assert(t[a] == s[a2] && t[b] == s[b2]);
        }
        lemma_distinct_below(t, bound - 1);
        assert(t.len() == s.len() - 1);
    } else {
        assert forall|j: int| 0 <= j < s.len() implies (#[trigger] s[j]) < bound - 1 by {
            if s[j] == (bound - 1) as usize {
                assert(s.contains(s[j]));
            }
        }
        lemma_distinct_below(s, bound - 1);
    }
}

} // verus!
