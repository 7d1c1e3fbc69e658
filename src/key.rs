use vstd::prelude::*;

verus! {

/// A key type with a total order, given by an injective map into the integers.
///
/// Comparing two keys at run time agrees with comparing their ranks.
pub trait BPKey: Copy + Sized {
    /// The position of this key in the total order.
    spec fn rank(self) -> int;

    /// Distinct keys have distinct ranks.
    proof fn lemma_rank_injective(a: Self, b: Self)
        ensures
            a.rank() == b.rank() ==> a == b,
    ;

    /// Whether `self` comes strictly before `other`.
    fn less_than(&self, other: &Self) -> (r: bool)
        ensures
            r == (self.rank() < other.rank()),
    ;
}

impl BPKey for u8 {
    open spec fn rank(self) -> int {
        self as int
    }

    proof fn lemma_rank_injective(a: Self, b: Self) {
    }

    fn less_than(&self, other: &Self) -> (r: bool) {
        *self < *other
    }
}

impl BPKey for u16 {
    open spec fn rank(self) -> int {
        self as int
    }

    proof fn lemma_rank_injective(a: Self, b: Self) {
    }

    fn less_than(&self, other: &Self) -> (r: bool) {
        *self < *other
    }
}

impl BPKey for u32 {
    open spec fn rank(self) -> int {
        self as int
    }

    proof fn lemma_rank_injective(a: Self, b: Self) {
    }

    fn less_than(&self, other: &Self) -> (r: bool) {
        *self < *other
    }
}

impl BPKey for u64 {
    open spec fn rank(self) -> int {
        self as int
    }

    proof fn lemma_rank_injective(a: Self, b: Self) {
    }

    fn less_than(&self, other: &Self) -> (r: bool) {
        *self < *other
    }
}

impl BPKey for usize {
    open spec fn rank(self) -> int {
        self as int
    }

    proof fn lemma_rank_injective(a: Self, b: Self) {
    }

    fn less_than(&self, other: &Self) -> (r: bool) {
        *self < *other
    }
}

impl BPKey for i32 {
    open spec fn rank(self) -> int {
        self as int
    }

    proof fn lemma_rank_injective(a: Self, b: Self) {
    }

    fn less_than(&self, other: &Self) -> (r: bool) {
        *self < *other
    }
}

impl BPKey for i64 {
    open spec fn rank(self) -> int {
        self as int
    }

    proof fn lemma_rank_injective(a: Self, b: Self) {
    }

    fn less_than(&self, other: &Self) -> (r: bool) {
        *self < *other
    }
}

/// Keys strictly ascending.
pub open spec fn sorted<K: BPKey>(s: Seq<K>) -> bool {
    forall|i: int, j: int|
        0 <= i < j < s.len() ==> (#[trigger] s[i]).rank() < (#[trigger] s[j]).rank()
}

/// What a search in an ascending sequence reports: `Ok(i)` where `key` stands at `i`,
/// `Err(i)` where it would be inserted to keep the order.
pub open spec fn search_result<K: BPKey>(s: Seq<K>, key: K, r: Result<usize, usize>) -> bool {
    match r {
        Ok(i) => i < s.len() && s[i as int] == key,
        Err(i) => {
            &&& i <= s.len()
            &&& forall|j: int| 0 <= j < i ==> (#[trigger] s[j]).rank() < key.rank()
            &&& forall|j: int| i <= j < s.len() ==> key.rank() < (#[trigger] s[j]).rank()
        },
    }
}

/// Binary search for `key` in ascending `keys`.
pub fn search_sorted<K: BPKey>(keys: &Vec<K>, key: &K) -> (r: Result<usize, usize>)
    requires
        sorted(keys@),
    ensures
        search_result(keys@, *key, r),
{
    let mut lo: usize = 0;
    let mut hi: usize = keys.len();
    while lo < hi
        invariant
            sorted(keys@),
            0 <= lo <= hi <= keys@.len(),
            forall|j: int| 0 <= j < lo ==> (#[trigger] keys@[j]).rank() < key.rank(),
            forall|j: int| hi <= j < keys@.len() ==> key.rank() < (#[trigger] keys@[j]).rank(),
        decreases hi - lo,
    {
        let mid = lo + (hi - lo) / 2;
        if keys[mid].less_than(key) {
            lo = mid + 1;
        } else if key.less_than(&keys[mid]) {
            hi = mid;
        } else {
            proof {
                K::lemma_rank_injective(keys@[mid as int], *key);
            }
            return Ok(mid);
        }
    }
    Err(lo)
}

} // verus!

verus! {

/// A piece of an ascending sequence is ascending.
pub proof fn lemma_sorted_subrange<K: BPKey>(s: Seq<K>, i: int, j: int)
    requires
        sorted(s),
        0 <= i <= j <= s.len(),
    ensures
        sorted(s.subrange(i, j)),
{
    let t = s.subrange(i, j);
    assert forall|a: int, b: int| 0 <= a < b < t.len() implies (#[trigger] t[a]).rank() < (
    #[trigger] t[b]).rank() by {
        assert(t[a] == s[i + a] && t[b] == s[i + b]);
    }
}

} // verus!
