//! Sequences of element indices: bounds, uniqueness and permutations.
use vstd::prelude::*;
use vstd::set_lib::*;

verus! {

/// Every index in `s` is below `n`.
pub open spec fn bounded(n: int, s: Seq<usize>) -> bool {
    forall|i: int| 0 <= i < s.len() ==> s[i] < n
}

/// `s` holds distinct indices, each below `n`: an order of a subset of `n` elements.
pub open spec fn unique_bounded(n: int, s: Seq<usize>) -> bool {
    bounded(n, s) && s.no_duplicates()
}

/// `s` is an order of all the elements `0..s.len()`.
pub open spec fn is_permutation(s: Seq<usize>) -> bool {
    unique_bounded(s.len() as int, s)
}

/// Each entry of `v` is smaller than the one after it.
pub open spec fn strictly_increasing(v: Seq<usize>) -> bool {
    forall|i: int| 0 <= i < v.len() - 1 ==> #[trigger] v[i] < v[i + 1]
}

/// The sequence `0, 1, ..., n - 1`.
pub open spec fn identity(n: nat) -> Seq<usize> {
    Seq::new(n, |i: int| i as usize)
}

/// A permutation of `0..n` holds every element below `n`.
pub proof fn lemma_permutation_contains(s: Seq<usize>, v: usize)
    requires
        is_permutation(s),
        v < s.len(),
        s.len() <= usize::MAX,
    ensures
        s.contains(v),
{
    broadcast use vstd::seq_lib::group_seq_properties;
    broadcast use vstd::set::group_set_axioms;

    let n = s.len() as usize;
    let r = <usize as FiniteRange>::range_set(0, n);
    range_set_properties::<usize>(0, n);
    s.unique_seq_to_set();
    assert(s.to_set().subset_of(r)) by {
        assert forall|x: usize| s.to_set().contains(x) implies r.contains(x) by {
            let i = choose|i: int| 0 <= i < s.len() && s[i] == x;
        }
    }
    lemma_subset_equality(s.to_set(), r);
    assert(r.contains(v));
    assert(s.to_set().contains(v));
}

/// A sequence with the same elements, counted with multiplicity, as an order of a
/// subset of `n` elements is one too.
pub proof fn lemma_same_multiset_unique_bounded(s: Seq<usize>, t: Seq<usize>, n: int)
    requires
        unique_bounded(n, s),
        t.to_multiset() == s.to_multiset(),
    ensures
        unique_bounded(n, t),
        t.len() == s.len(),
{
    s.to_multiset_ensures();
    t.to_multiset_ensures();
    s.lemma_multiset_has_no_duplicates();
    t.lemma_multiset_has_no_duplicates_conv();
    assert forall|i: int| 0 <= i < t.len() implies t[i] < n by {
        assert(t.contains(t[i]));
        assert(t.to_multiset().count(t[i]) > 0);
        assert(s.to_multiset().count(t[i]) > 0);
        assert(s.contains(t[i]));
    }
}

/// The identity order is a permutation.
pub proof fn lemma_identity_permutation(n: nat)
    requires
        n <= usize::MAX,
    ensures
        is_permutation(identity(n)),
        identity(n).len() == n,
{
}

/// Tells whether every index in `order` is below `elements` and none occurs twice.
pub fn unique_and_bounded(elements: usize, order: &[usize]) -> (r: bool)
    ensures
        r == unique_bounded(elements as int, order@),
{
    let n = order.len();
    let mut i: usize = 0;
    while i < n
        invariant
            n == order@.len(),
            i <= n,
            forall|k: int| 0 <= k < i ==> order@[k] < elements,
            forall|k: int, l: int| 0 <= k < i && 0 <= l < n && k != l ==> order@[k] != order@[l],
        decreases n - i,
    {
        let a = order[i];
        if a >= elements {
            return false;
        }
        let mut j: usize = 0;
        while j < n
            invariant
                n == order@.len(),
                i < n,
                j <= n,
                a == order@[i as int],
                forall|l: int| 0 <= l < j && l != i ==> order@[l] != a,
            decreases n - j,
        {
            if i != j && order[j] == a {
                return false;
            }
            j += 1;
        }
        i += 1;
    }
    true
}

/// Tells whether `v` is strictly increasing.
pub fn pairwise_lt(v: &[usize]) -> (r: bool)
    ensures
        r == strictly_increasing(v@),
{
    if v.len() >= 2 {
        let mut i: usize = 0;
        while i < v.len() - 1
            invariant
                v.len() >= 2,
                i <= v.len() - 1,
                forall|k: int| 0 <= k < i ==> #[trigger] v@[k] < v@[k + 1],
            decreases v.len() - 1 - i,
        {
            if v[i] >= v[i + 1] {
                return false;
            }
            i += 1;
        }
    }
    true
}

/// The index that takes the place of `x` once element `t` leaves the universe.
pub open spec fn shift_down(x: usize, t: usize) -> usize {
    if x > t {
        (x - 1) as usize
    } else {
        x
    }
}

/// The rank at which `t` stands in `s`.
pub open spec fn position(s: Seq<usize>, t: usize) -> int {
    choose|p: int| 0 <= p < s.len() && s[p] == t
}

/// `s` with the entry at rank `p` dropped and every index above `t` lowered by one.
pub open spec fn drop_at(s: Seq<usize>, p: int, t: usize) -> Seq<usize> {
    (s.subrange(0, p) + s.subrange(p + 1, s.len() as int)).map_values(|x: usize| shift_down(x, t))
}

/// The order `s` once element `t` has left the universe: `t` is dropped, and every
/// index above it is lowered by one, so that the survivors keep their order.
pub open spec fn drop_element(s: Seq<usize>, t: usize) -> Seq<usize> {
    drop_at(s, position(s, t), t)
}

/// In an order without repeated indices, an index stands at one rank only.
pub proof fn lemma_position(s: Seq<usize>, t: usize, p: int)
    requires
        s.no_duplicates(),
        0 <= p < s.len(),
        s[p] == t,
    ensures
        position(s, t) == p,
{
    assert(exists|q: int| 0 <= q < s.len() && s[q] == t);
}

/// Removing an element from a permutation of `n` elements leaves a permutation of
/// `n - 1` elements.
pub proof fn lemma_drop_element_permutation(s: Seq<usize>, t: usize)
    requires
        is_permutation(s),
        t < s.len(),
        s.len() <= usize::MAX,
    ensures
        0 <= position(s, t) < s.len(),
        s[position(s, t)] == t,
        drop_element(s, t).len() == s.len() - 1,
        is_permutation(drop_element(s, t)),
{
    lemma_permutation_contains(s, t);
    let p = choose|p: int| 0 <= p < s.len() && s[p] == t;
    lemma_position(s, t, p);
    let n = s.len();
    let a = s.subrange(0, p) + s.subrange(p + 1, n as int);
    assert(a.len() == n - 1);
    assert forall|i: int| 0 <= i < a.len() implies #[trigger] a[i] == if i < p {
        s[i]
    } else {
        s[i + 1]
    } by {}
    let r = drop_element(s, t);
    assert forall|i: int| 0 <= i < r.len() implies r[i] < n - 1 by {
        assert(r[i] == shift_down(a[i], t));
        if i < p {
            assert(s[i] != t);
        } else {
            assert(s[i + 1] != t);
        }
    }
    assert forall|i: int, j: int| 0 <= i < r.len() && 0 <= j < r.len() && i != j implies r[i]
        != r[j] by {
        assert(r[i] == shift_down(a[i], t));
        assert(r[j] == shift_down(a[j], t));
        let ki = if i < p { i } else { i + 1 };
        let kj = if j < p { j } else { j + 1 };
        assert(a[i] == s[ki] && a[j] == s[kj]);
        assert(s[ki] != s[kj]);
        assert(s[ki] != t && s[kj] != t);
    }
}

/// The order `order` once element `target` has left the universe, and the rank at
/// which `target` stood.
pub(crate) fn remove_from_order(order: &[usize], target: usize) -> (r: (Vec<usize>, usize))
    requires
        is_permutation(order@),
        target < order@.len(),
    ensures
        r.1 == position(order@, target),
        r.0@ == drop_element(order@, target),
{
    let ghost s = order@;
    let n = order.len();
    proof {
        lemma_drop_element_permutation(order@, target);
    }
    let mut out: Vec<usize> = Vec::with_capacity(n);
    let mut found: Option<usize> = None;
    let mut j: usize = 0;
    while j < n
        invariant
            n == s.len(),
            s == order@,
            is_permutation(s),
            j <= n,
            found is None ==> forall|k: int| 0 <= k < j ==> s[k] != target,
            found is None ==> out@ =~= s.subrange(0, j as int).map_values(
                |x: usize| shift_down(x, target),
            ),
            found matches Some(p) ==> p < j && s[p as int] == target && out@ =~= (s.subrange(
                0,
                p as int,
            ) + s.subrange(p + 1, j as int)).map_values(|x: usize| shift_down(x, target)),
        decreases n - j,
    {
        let el = order[j];
        if el == target {
            found = Some(j);
        } else if el > target {
            out.push(el - 1);
        } else {
            out.push(el);
        }
        j += 1;
    }
    match found {
        Some(p) => {
            proof {
                lemma_position(s, target, p as int);
            }
            (out, p)
        },
        None => {
            proof {
                lemma_permutation_contains(s, target);
            }
            (out, 0)
        },
    }
}

/// The chain `s` of distinct elements once element `t` has left the universe: `t`
/// is dropped where it is ranked, and every index above it is lowered by one.
pub open spec fn drop_from_chain(s: Seq<usize>, t: usize) -> Seq<usize> {
    if s.contains(t) {
        drop_element(s, t)
    } else {
        s.map_values(|x: usize| shift_down(x, t))
    }
}

/// Removing an element from the universe leaves a chain of distinct elements of the
/// smaller universe.
pub proof fn lemma_drop_from_chain(s: Seq<usize>, t: usize, n: int)
    requires
        unique_bounded(n, s),
        t < n,
    ensures
        unique_bounded(n - 1, drop_from_chain(s, t)),
        drop_from_chain(s, t).len() == if s.contains(t) {
            s.len() - 1
        } else {
            s.len() as int
        },
{
    let r = drop_from_chain(s, t);
    if s.contains(t) {
        let p = choose|p: int| 0 <= p < s.len() && s[p] == t;
        lemma_position(s, t, p);
        let a = s.subrange(0, p) + s.subrange(p + 1, s.len() as int);
        assert forall|i: int| 0 <= i < a.len() implies #[trigger] a[i] == if i < p {
            s[i]
        } else {
            s[i + 1]
        } by {}
        assert forall|i: int| 0 <= i < r.len() implies r[i] < n - 1 by {
            assert(r[i] == shift_down(a[i], t));
            if i < p {
                assert(s[i] != t);
            } else {
                assert(s[i + 1] != t);
            }
        }
        assert forall|i: int, j: int| 0 <= i < r.len() && 0 <= j < r.len() && i != j implies r[i]
            != r[j] by {
            let ki = if i < p { i } else { i + 1 };
            let kj = if j < p { j } else { j + 1 };
            assert(a[i] == s[ki] && a[j] == s[kj]);
            assert(s[ki] != t && s[kj] != t);
        }
    } else {
        assert forall|i: int| 0 <= i < r.len() implies r[i] < n - 1 by {
            assert(s[i] != t);
        }
        assert forall|i: int, j: int| 0 <= i < r.len() && 0 <= j < r.len() && i != j implies r[i]
            != r[j] by {
            assert(s[i] != t && s[j] != t);
        }
    }
}

/// The chain `order` once element `target` has left the universe.
pub(crate) fn remove_from_chain(order: &[usize], target: usize) -> (r: Vec<usize>)
    requires
        order@.no_duplicates(),
    ensures
        r@ == drop_from_chain(order@, target),
{
    let ghost s = order@;
    let n = order.len();
    let mut out: Vec<usize> = Vec::with_capacity(n);
    let mut found: Option<usize> = None;
    let mut j: usize = 0;
    while j < n
        invariant
            n == s.len(),
            s == order@,
            s.no_duplicates(),
            j <= n,
            found is None ==> forall|k: int| 0 <= k < j ==> s[k] != target,
            found is None ==> out@ =~= s.subrange(0, j as int).map_values(
                |x: usize| shift_down(x, target),
            ),
            found matches Some(p) ==> p < j && s[p as int] == target && out@ =~= (s.subrange(
                0,
                p as int,
            ) + s.subrange(p + 1, j as int)).map_values(|x: usize| shift_down(x, target)),
        decreases n - j,
    {
        let el = order[j];
        if el == target {
            found = Some(j);
        } else if el > target {
            out.push(el - 1);
        } else {
            out.push(el);
        }
        j += 1;
    }
    proof {
        match found {
            Some(p) => {
                lemma_position(s, target, p as int);
            },
            None => {
                assert(s.subrange(0, n as int) =~= s);
            },
        }
    }
    out
}

/// A copy of the indices of `v`.
pub(crate) fn copy_indices(v: &Vec<usize>) -> (r: Vec<usize>)
    ensures
        r@ == v@,
{
    let mut r = Vec::with_capacity(v.len());
    append_indices(&mut r, v.as_slice());
    proof {
        assert(r@ =~= v@);
    }
    r
}

/// A copy of the flags of `v`.
pub(crate) fn copy_flags(v: &Vec<bool>) -> (r: Vec<bool>)
    ensures
        r@ == v@,
{
    let mut r = Vec::with_capacity(v.len());
    append_flags(&mut r, v.as_slice());
    proof {
        assert(r@ =~= v@);
    }
    r
}

/// Appends the indices of `s` to `v`.
pub(crate) fn append_indices(v: &mut Vec<usize>, s: &[usize])
    ensures
        final(v)@ == old(v)@ + s@,
{
    v.extend_from_slice(s);
    proof {
        assert(final(v)@ =~= old(v)@ + s@);
    }
}

/// Appends the flags of `s` to `v`.
pub(crate) fn append_flags(v: &mut Vec<bool>, s: &[bool])
    ensures
        final(v)@ == old(v)@ + s@,
{
    v.extend_from_slice(s);
    proof {
        assert(final(v)@ =~= old(v)@ + s@);
    }
}

} // verus!
