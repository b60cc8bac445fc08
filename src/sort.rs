//! Sorting two slices together by keys, and dense ranks of values.
use vstd::prelude::*;
use crate::perm::is_permutation;

verus! {

/// A value that sorts by an integer key.
pub trait SortKey: Copy {
    /// The key the value sorts by.
    spec fn key(&self) -> int;

    /// Whether `self` sorts after `other`.
    fn greater(&self, other: &Self) -> (r: bool)
        ensures
            r == (self.key() > other.key()),
    ;
}

impl SortKey for usize {
    open spec fn key(&self) -> int {
        *self as int
    }

    fn greater(&self, other: &usize) -> (r: bool) {
        *self > *other
    }
}

impl SortKey for u64 {
    open spec fn key(&self) -> int {
        *self as int
    }

    fn greater(&self, other: &u64) -> (r: bool) {
        *self > *other
    }
}

/// The keys of `b` do not decrease between `lo` and `hi`.
pub open spec fn sorted_between<B: SortKey>(b: Seq<B>, lo: int, hi: int) -> bool {
    forall|k: int, l: int| lo <= k < l < hi ==> #[trigger] b[k].key() <= #[trigger] b[l].key()
}

/// `fa` and `fb` hold, rank for rank, the pairs of `a` and `b` after the reordering `p`.
pub open spec fn reordered<A, B>(a: Seq<A>, b: Seq<B>, fa: Seq<A>, fb: Seq<B>, p: Seq<usize>) -> bool {
    &&& is_permutation(p)
    &&& p.len() == a.len()
    &&& fa.len() == a.len()
    &&& fb.len() == b.len()
    &&& forall|i: int| 0 <= i < p.len() ==> #[trigger] fa[i] == a[p[i] as int] && fb[i] == b[p[i] as int]
}

/// Sorts `a` and `b` together, by the keys of `b`, keeping equal keys in their order
/// (insertion sort).
pub fn sort_using<A: Copy, B: SortKey>(a: &mut [A], b: &mut [B])
    requires
        old(a)@.len() == old(b)@.len(),
    ensures
        sorted_between(final(b)@, 0, final(b)@.len() as int),
        exists|p: Seq<usize>| reordered(old(a)@, old(b)@, final(a)@, final(b)@, p),
{
    let n = b.len();
    let ghost mut p: Seq<usize> = Seq::new(n as nat, |i: int| i as usize);
    proof {
        assert(is_permutation(p));
        assert(reordered(old(a)@, old(b)@, a@, b@, p));
    }
    if n == 0 {
        return;
    }
    let mut i: usize = 1;
    while i < n
        invariant
            n == b@.len(),
            a@.len() == n,
            1 <= i <= n,
            sorted_between(b@, 0, i as int),
            reordered(old(a)@, old(b)@, a@, b@, p),
        decreases n - i,
    {
        let mut j = i;
        while j > 0 && b[j - 1].greater(&b[j])
            invariant
                n == b@.len(),
                a@.len() == n,
                1 <= i < n,
                j <= i,
                sorted_between(b@, 0, j as int),
                sorted_between(b@, j + 1, i + 1),
                forall|k: int, l: int| 0 <= k < j < l <= i ==> #[trigger] b@[k].key() <= #[trigger] b@[l].key(),
                forall|l: int| j < l <= i ==> b@[j as int].key() < #[trigger] b@[l].key(),
                reordered(old(a)@, old(b)@, a@, b@, p),
            decreases j,
        {
            let ta = a[j];
            a[j] = a[j - 1];
            a[j - 1] = ta;
            let tb = b[j];
            b[j] = b[j - 1];
            b[j - 1] = tb;
            proof {
                let pj = p[j as int];
                p = p.update(j as int, p[j - 1]).update(j - 1, pj);
                assert(p.no_duplicates()) by {
                    assert forall|k: int, l: int| 0 <= k < p.len() && 0 <= l < p.len() && k != l implies p[k] != p[l] by {
                    }
                }
            }
            j -= 1;
        }
        i += 1;
    }
}

/// The number of distinct values in `v[..j]` below `x`, or above it where `reverse` holds.
pub open spec fn distinct_beyond(v: Seq<usize>, x: usize, j: int, reverse: bool) -> nat
    decreases j,
{
    if j <= 0 {
        0
    } else {
        distinct_beyond(v, x, j - 1, reverse) + if (if reverse {
            v[j - 1] > x
        } else {
            v[j - 1] < x
        }) && !v.subrange(0, j - 1).contains(v[j - 1]) {
            1nat
        } else {
            0nat
        }
    }
}

/// The dense rank of each value of `v`: the number of distinct values of `v` below it,
/// or above it where `reverse` holds. Equal values share a rank.
pub fn get_order(v: &[usize], reverse: bool) -> (r: Vec<usize>)
    ensures
        r@.len() == v@.len(),
        forall|i: int| 0 <= i < v@.len() ==> #[trigger] r@[i] == distinct_beyond(v@, v@[i], v@.len() as int, reverse),
{
    let n = v.len();
    let mut first: Vec<bool> = Vec::with_capacity(n);
    let mut j: usize = 0;
    while j < n
        invariant
            n == v@.len(),
            j <= n,
            first@.len() == j,
            forall|q: int| 0 <= q < j ==> #[trigger] first@[q] == !v@.subrange(0, q).contains(v@[q]),
        decreases n - j,
    {
        let mut seen = false;
        let mut k: usize = 0;
        while k < j
            invariant
                n == v@.len(),
                j < n,
                k <= j,
                seen == exists|q: int| 0 <= q < k && v@[q] == v@[j as int],
            decreases j - k,
        {
            if v[k] == v[j] {
                seen = true;
            }
            k += 1;
        }
        proof {
            let s = v@.subrange(0, j as int);
            if seen {
                let q = choose|q: int| 0 <= q < j && v@[q] == v@[j as int];
                assert(s[q] == v@[j as int]);
            } else {
                assert forall|q: int| 0 <= q < s.len() implies s[q] != v@[j as int] by {
                    assert(s[q] == v@[q]);
                }
            }
        }
        first.push(!seen);
        j += 1;
    }
    let mut out: Vec<usize> = Vec::with_capacity(n);
    let mut i: usize = 0;
    while i < n
        invariant
            n == v@.len(),
            first@.len() == n,
            forall|q: int| 0 <= q < n ==> #[trigger] first@[q] == !v@.subrange(0, q).contains(v@[q]),
            i <= n,
            out@.len() == i,
            forall|q: int| 0 <= q < i ==> #[trigger] out@[q] == distinct_beyond(v@, v@[q], n as int, reverse),
        decreases n - i,
    {
        let x = v[i];
        let mut count: usize = 0;
        let mut k: usize = 0;
        while k < n
            invariant
                n == v@.len(),
                first@.len() == n,
                forall|q: int| 0 <= q < n ==> #[trigger] first@[q] == !v@.subrange(0, q).contains(v@[q]),
                k <= n,
                count == distinct_beyond(v@, x, k as int, reverse),
                count <= k,
            decreases n - k,
        {
            let beyond = if reverse {
                v[k] > x
            } else {
                v[k] < x
            };
            if beyond && first[k] {
                count += 1;
            }
            k += 1;
        }
        out.push(count);
        i += 1;
    }
    out
}

} // verus!
