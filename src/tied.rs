//! Tied orders: every element ranked, highest first, where adjacent ranks may be tied.
use vstd::prelude::*;
use rand::rngs::StdRng;
use crate::cardinal::CardinalRef;
use crate::order::{Order, OrderOwned, OrderRef};
use crate::partial_order::{PartialOrder, PartialOrderManual};
use crate::perm::{
    append_flags, append_indices, identity, is_permutation, lemma_identity_permutation,
    lemma_permutation_contains, lemma_position, lemma_same_multiset_unique_bounded, position,
    unique_and_bounded, unique_bounded,
};
use crate::random::{random_below, random_bool, shuffle};
use crate::sort::{reordered, sort_using, SortKey};
use crate::specific::Specific;

verus! {

/// The number of tie flags of an order of `n` ranked elements: one for each
/// adjacent pair of ranks.
pub open spec fn tie_len(n: nat) -> nat {
    if n == 0 {
        0
    } else {
        (n - 1) as nat
    }
}

/// `order` ranks all of its elements and `tied` has one flag per adjacent pair of ranks.
pub open spec fn valid_tied(order: Seq<usize>, tied: Seq<bool>) -> bool {
    is_permutation(order) && tied.len() == tie_len(order.len())
}

/// `w` is the size of the highest tie group of an order of `n` ranks with flags `tied`:
/// rank 0 with every following rank that is tied to the one before it.
pub open spec fn is_top_group_len(tied: Seq<bool>, n: nat, w: nat) -> bool {
    if n == 0 {
        w == 0
    } else {
        &&& 1 <= w <= n
        &&& forall|k: int| 0 <= k < w - 1 ==> #[trigger] tied[k]
        &&& w < n ==> !tied[w - 1]
    }
}

/// The number of untied boundaries among the first `i` ranks: the tie group of rank `i`.
pub open spec fn group_of(tied: Seq<bool>, i: int) -> nat
    decreases i,
{
    if i <= 0 {
        0
    } else {
        group_of(tied, i - 1) + if tied[i - 1] {
            0nat
        } else {
            1nat
        }
    }
}

/// The tie flags once the element at rank `p` is dropped. The flags on either side of
/// it merge into one, which holds only where both did; at the first or the last rank
/// the one flag beside it goes.
pub open spec fn merge_ties(tied: Seq<bool>, p: int) -> Seq<bool> {
    if tied.len() == 0 {
        tied
    } else if p == 0 {
        tied.subrange(1, tied.len() as int)
    } else if p >= tied.len() {
        tied.subrange(0, tied.len() - 1)
    } else {
        tied.subrange(0, p - 1).push(tied[p - 1] && tied[p]) + tied.subrange(
            p + 1,
            tied.len() as int,
        )
    }
}

/// Dropping the element at a rank `p` inside the order leaves one flag between ranks
/// `p - 1` and `p + 1`, which holds exactly where the element was tied to both of its
/// neighbours; the flags before and after keep their order.
pub proof fn lemma_merge_ties_interior(tied: Seq<bool>, p: int)
    requires
        0 < p < tied.len(),
    ensures
        merge_ties(tied, p).len() == tied.len() - 1,
        merge_ties(tied, p)[p - 1] == (tied[p - 1] && tied[p]),
        forall|k: int| 0 <= k < p - 1 ==> #[trigger] merge_ties(tied, p)[k] == tied[k],
        forall|k: int| p <= k < tied.len() - 1 ==> #[trigger] merge_ties(tied, p)[k] == tied[k + 1],
{
}

/// Dropping the element at the first or the last rank drops the one flag beside it.
pub proof fn lemma_merge_ties_ends(tied: Seq<bool>)
    requires
        tied.len() > 0,
    ensures
        merge_ties(tied, 0) == tied.subrange(1, tied.len() as int),
        merge_ties(tied, tied.len() as int) == tied.subrange(0, tied.len() - 1),
{
}

/// The tie flags once the element at rank `p` is dropped.
pub(crate) fn merge_ties_at(tied: &[bool], p: usize) -> (r: Vec<bool>)
    ensures
        r@ == merge_ties(tied@, p as int),
{
    let n = tied.len();
    let mut out: Vec<bool> = Vec::new();
    if n == 0 {
        proof {
            assert(out@ =~= tied@);
        }
    } else if p == 0 {
        append_flags(&mut out, vstd::slice::slice_subrange(tied, 1, n));
        proof {
            assert(out@ =~= merge_ties(tied@, p as int));
        }
    } else if p >= n {
        append_flags(&mut out, vstd::slice::slice_subrange(tied, 0, n - 1));
        proof {
            assert(out@ =~= merge_ties(tied@, p as int));
        }
    } else {
        append_flags(&mut out, vstd::slice::slice_subrange(tied, 0, p - 1));
        out.push(tied[p - 1] && tied[p]);
        append_flags(&mut out, vstd::slice::slice_subrange(tied, p + 1, n));
        proof {
            assert(out@ =~= merge_ties(tied@, p as int));
        }
    }
    out
}

/// `x` belongs to the highest tie group of the order `order` with flags `tied`.
pub open spec fn is_winner(order: Seq<usize>, tied: Seq<bool>, x: usize) -> bool {
    exists|j: int, w: nat|
        #[trigger] is_top_group_len(tied, order.len(), w) && 0 <= j < w && #[trigger] order[j] == x
}

/// `groups` are the tie groups of the order `order` with flags `tied`, group `g` being
/// the ranks from `b[g]` up to `b[g + 1]`: the ranks inside a group are tied to the one
/// before them, and the first rank of every group but the first is not.
pub open spec fn is_group_split(
    order: Seq<usize>,
    tied: Seq<bool>,
    b: Seq<int>,
    groups: Seq<Seq<usize>>,
) -> bool {
    &&& b.len() == groups.len() + 1
    &&& b[0] == 0
    &&& b.last() == order.len()
    &&& forall|g: int| 0 <= g < groups.len() ==> b[g] < #[trigger] b[g + 1]
    &&& forall|g: int|
        0 <= g < groups.len() ==> #[trigger] groups[g] == order.subrange(b[g], b[g + 1])
    &&& forall|g: int, i: int|
        #![trigger b[g], tied[i - 1]]
        0 <= g < groups.len() && b[g] < i < b[g + 1] ==> tied[i - 1]
    &&& forall|g: int| 0 < g < groups.len() ==> !tied[#[trigger] b[g] - 1]
}

/// The indices that each slice holds.
pub open spec fn slices_view(r: Seq<&[usize]>) -> Seq<Seq<usize>> {
    r.map_values(|s: &[usize]| s@)
}

/// The tie groups of the order `order` with flags `tied`, highest first.
fn groups_of<'a>(order: &'a [usize], tied: &'a [bool]) -> (r: Vec<&'a [usize]>)
    requires
        tied@.len() == tie_len(order@.len()),
    ensures
        exists|b: Seq<int>| #[trigger] is_group_split(order@, tied@, b, slices_view(r@)),
{
    let n = order.len();
    let mut out: Vec<&'a [usize]> = Vec::new();
    let ghost mut b: Seq<int> = seq![0];
    if n == 0 {
        proof {
            assert(is_group_split(order@, tied@, b, slices_view(out@)));
        }
        return out;
    }
    let mut start: usize = 0;
    let mut i: usize = 1;
    while i < n
        invariant
            n == order@.len(),
            tied@.len() == n - 1,
            start < i <= n,
            b.len() == out@.len() + 1,
            b[0] == 0,
            b.last() == start,
            forall|g: int| 0 <= g < out@.len() ==> b[g] < #[trigger] b[g + 1],
            forall|g: int|
                0 <= g < out@.len() ==> #[trigger] out@[g]@ == order@.subrange(b[g], b[g + 1]),
            forall|g: int, k: int|
                #![trigger b[g], tied@[k - 1]]
                0 <= g < out@.len() && b[g] < k < b[g + 1] ==> tied@[k - 1],
            forall|g: int| 0 < g <= out@.len() ==> !tied@[#[trigger] b[g] - 1],
            forall|k: int| start < k < i ==> #[trigger] tied@[k - 1],
        decreases n - i,
    {
        if !tied[i - 1] {
            let ghost prev_b = b;
            let ghost prev_out = out@;
            out.push(vstd::slice::slice_subrange(order, start, i));
            proof {
                b = b.push(i as int);
                assert forall|g: int| 0 <= g < out@.len() implies #[trigger] out@[g]@
                    == order@.subrange(b[g], b[g + 1]) by {
                    if g < prev_out.len() {
                        assert(out@[g] == prev_out[g]);
                    }
                }
            }
            start = i;
        }
        i += 1;
    }
    let ghost prev_out = out@;
    out.push(vstd::slice::slice_subrange(order, start, n));
    proof {
        b = b.push(n as int);
        assert forall|g: int| 0 <= g < out@.len() implies #[trigger] out@[g]@ == order@.subrange(
            b[g],
            b[g + 1],
        ) by {
            if g < prev_out.len() {
                assert(out@[g] == prev_out[g]);
            }
        }
        assert(is_group_split(order@, tied@, b, slices_view(out@)));
    }
    out
}

/// A rank's tie group is never above the rank itself.
pub proof fn lemma_group_of_bound(tied: Seq<bool>, i: int)
    requires
        0 <= i,
    ensures
        group_of(tied, i) <= i,
    decreases i,
{
    if i > 0 {
        lemma_group_of_bound(tied, i - 1);
    }
}

/// The scores of a tied order of all elements: `n - 1` for its highest tie group, and
/// one less for each tie group further down.
pub open spec fn tied_scores(order: Seq<usize>, tied: Seq<bool>) -> Seq<usize> {
    Seq::new(
        order.len(),
        |c: int| (order.len() - 1 - group_of(tied, position(order, c as usize))) as usize,
    )
}

/// The size of the highest tie group given the tie flags of `n` ranks.
fn top_group_len(tied: &[bool], n: usize) -> (w: usize)
    requires
        tied@.len() == tie_len(n as nat),
    ensures
        is_top_group_len(tied@, n as nat, w as nat),
{
    if n == 0 {
        return 0;
    }
    let mut i: usize = 0;
    while i < tied.len() && tied[i]
        invariant
            tied@.len() == n - 1,
            i <= tied@.len(),
            forall|k: int| 0 <= k < i ==> #[trigger] tied@[k],
        decreases tied@.len() - i,
    {
        i += 1;
    }
    i + 1
}

/// A borrowed tied order of all elements.
#[derive(Debug, Clone, Copy)]
pub struct TiedRef<'a> {
    pub(crate) order: &'a [usize],
    pub(crate) tied: &'a [bool],
}

/// An owned tied order of all elements.
#[derive(Debug, PartialEq, Eq)]
pub struct Tied {
    pub(crate) order: Vec<usize>,
    pub(crate) tied: Vec<bool>,
}

/// A borrowed tied order of a subset of `elements` elements; elements left out rank
/// below all that are present.
#[derive(Debug, Clone, Copy)]
pub struct TiedIRef<'a> {
    pub(crate) elements: usize,
    pub(crate) order: &'a [usize],
    pub(crate) tied: &'a [bool],
}

impl<'a> View for TiedRef<'a> {
    type V = Seq<usize>;

    closed spec fn view(&self) -> Seq<usize> {
        self.order@
    }
}

impl View for Tied {
    type V = Seq<usize>;

    closed spec fn view(&self) -> Seq<usize> {
        self.order@
    }
}

impl<'a> View for TiedIRef<'a> {
    type V = Seq<usize>;

    closed spec fn view(&self) -> Seq<usize> {
        self.order@
    }
}

impl<'a> TiedRef<'a> {
    /// The tie flags: flag `i` tells whether rank `i` is tied with rank `i + 1`.
    pub closed spec fn ties(&self) -> Seq<bool> {
        self.tied@
    }

    #[verifier::type_invariant]
    pub(crate) open spec fn inv(&self) -> bool {
        valid_tied(self@, self.ties())
    }

    /// Creates a tied order from a permutation and its tie flags.
    pub fn new(order: &'a [usize], tied: &'a [bool]) -> (r: Self)
        requires
            valid_tied(order@, tied@),
        ensures
            r@ == order@,
            r.ties() == tied@,
    {
        TiedRef { order, tied }
    }

    /// Creates a tied order, or `None` where `order` is not a permutation or `tied`
    /// does not have one flag per adjacent pair of ranks.
    pub fn try_new(order: &'a [usize], tied: &'a [bool]) -> (r: Option<Self>)
        ensures
            r is Some <==> valid_tied(order@, tied@),
            r matches Some(t) ==> t@ == order@ && t.ties() == tied@,
    {
        let correct_len = order.len() == 0 && tied.len() == 0 || tied.len() as u128 + 1
            == order.len() as u128;
        if correct_len && unique_and_bounded(order.len(), order) {
            Some(TiedRef { order, tied })
        } else {
            None
        }
    }

    /// Creates a tied order from data the caller has checked.
    pub fn new_unchecked(order: &'a [usize], tied: &'a [bool]) -> (r: Self)
        requires
            valid_tied(order@, tied@),
        ensures
            r@ == order@,
            r.ties() == tied@,
    {
        TiedRef { order, tied }
    }

    /// The number of elements.
    pub fn elements(&self) -> (r: usize)
        ensures
            r == self@.len(),
    {
        self.order.len()
    }

    /// The elements, highest ranked first.
    pub fn order(&self) -> (r: &'a [usize])
        ensures
            r@ == self@,
    {
        self.order
    }

    /// The tie flags.
    pub fn tied(&self) -> (r: &'a [bool])
        ensures
            r@ == self.ties(),
    {
        self.tied
    }

    /// The highest tie group.
    pub fn winners(&self) -> (r: &'a [usize])
        ensures
            is_top_group_len(self.ties(), self@.len(), r@.len()),
            r@ == self@.subrange(0, r@.len() as int),
    {
        proof {
            use_type_invariant(self);
        }
        let w = top_group_len(self.tied, self.order.len());
        vstd::slice::slice_subrange(self.order, 0, w)
    }

    /// The tie groups, highest first: maximal runs of ranks tied to the one before.
    pub fn iter_groups(&self) -> (r: Vec<&'a [usize]>)
        ensures
            exists|b: Seq<int>| #[trigger] is_group_split(self@, self.ties(), b, slices_view(r@)),
    {
        proof {
            use_type_invariant(self);
        }
        groups_of(self.order, self.tied)
    }

    /// A winner drawn at random from the highest tie group.
    pub fn winner(&self, rng: &mut StdRng) -> (r: Specific)
        requires
            self@.len() > 0,
        ensures
            r.elements_spec() == self@.len(),
            is_winner(self@, self.ties(), r.value_spec() as usize),
    {
        proof {
            use_type_invariant(self);
        }
        let w = top_group_len(self.tied, self.order.len());
        let k = random_below(rng, w);
        let r = Specific::new(self.order[k], self.order.len());
        proof {
            assert(is_top_group_len(self.ties(), self@.len(), w as nat) && 0 <= k < w
                && self@[k as int] == r.value_spec());
        }
        r
    }

    /// The same order seen as a tied order that happens to rank every element.
    pub fn to_incomplete(&self) -> (r: TiedIRef<'a>)
        ensures
            r.elements_spec() == self@.len(),
            r@ == self@,
            r.ties() == self.ties(),
    {
        proof {
            use_type_invariant(self);
        }
        TiedIRef { elements: self.order.len(), order: self.order, tied: self.tied }
    }

}

impl Tied {
    /// The tie flags: flag `i` tells whether rank `i` is tied with rank `i + 1`.
    pub closed spec fn ties(&self) -> Seq<bool> {
        self.tied@
    }

    #[verifier::type_invariant]
    pub(crate) open spec fn inv(&self) -> bool {
        valid_tied(self@, self.ties())
    }

    /// Creates a tied order from a permutation and its tie flags.
    pub fn new(order: Vec<usize>, tied: Vec<bool>) -> (r: Self)
        requires
            valid_tied(order@, tied@),
        ensures
            r@ == order@,
            r.ties() == tied@,
    {
        Tied { order, tied }
    }

    /// Creates a tied order, or `None` where `order` is not a permutation or `tied`
    /// does not have one flag per adjacent pair of ranks.
    pub fn try_new(order: Vec<usize>, tied: Vec<bool>) -> (r: Option<Self>)
        ensures
            r is Some <==> valid_tied(order@, tied@),
            r matches Some(t) ==> t@ == order@ && t.ties() == tied@,
    {
        let correct_len = order.len() == 0 && tied.len() == 0 || tied.len() as u128 + 1
            == order.len() as u128;
        if correct_len && unique_and_bounded(order.len(), order.as_slice()) {
            Some(Tied { order, tied })
        } else {
            None
        }
    }

    /// Creates a tied order from data the caller has checked.
    pub fn new_unchecked(order: Vec<usize>, tied: Vec<bool>) -> (r: Self)
        requires
            valid_tied(order@, tied@),
        ensures
            r@ == order@,
            r.ties() == tied@,
    {
        Tied { order, tied }
    }

    /// The elements, highest ranked first.
    pub fn order(&self) -> (r: &[usize])
        ensures
            r@ == self@,
    {
        self.order.as_slice()
    }

    /// The tie flags.
    pub fn tied(&self) -> (r: &[bool])
        ensures
            r@ == self.ties(),
    {
        self.tied.as_slice()
    }

    /// Makes `self` a copy of `source`.
    pub fn clone_from_ref(&mut self, source: TiedRef)
        ensures
            final(self)@ == source@,
            final(self).ties() == source.ties(),
    {
        *self = source.to_owned();
    }

    /// The order of `elements` elements where all of them are tied.
    pub fn new_tied(elements: usize) -> (r: Self)
        ensures
            r@ == identity(elements as nat),
            r.ties() == Seq::new(tie_len(elements as nat), |i: int| true),
    {
        proof {
            lemma_identity_permutation(elements as nat);
        }
        if elements == 0 {
            let order: Vec<usize> = Vec::new();
            let tied: Vec<bool> = Vec::new();
            proof {
                assert(order@ =~= identity(0));
                assert(tied@ =~= Seq::new(0, |i: int| true));
            }
            return Tied::new(order, tied);
        }
        let mut order: Vec<usize> = Vec::with_capacity(elements);
        let mut i: usize = 0;
        while i < elements
            invariant
                i <= elements,
                order@ =~= identity(i as nat),
            decreases elements - i,
        {
            order.push(i);
            i += 1;
        }
        let tied = vec![true; elements - 1];
        proof {
            assert(tied@ =~= Seq::new(tie_len(elements as nat), |i: int| true));
        }
        Tied::new(order, tied)
    }

    /// A random tied order of `elements` elements: a random permutation, and a fair
    /// coin for each tie flag.
    pub fn random(rng: &mut StdRng, elements: usize) -> (r: Self)
        ensures
            r@.len() == elements,
            valid_tied(r@, r.ties()),
    {
        if elements == 0 {
            return Tied::new(Vec::new(), Vec::new());
        }
        let mut order: Vec<usize> = Vec::with_capacity(elements);
        let mut i: usize = 0;
        while i < elements
            invariant
                i <= elements,
                order@ =~= identity(i as nat),
            decreases elements - i,
        {
            order.push(i);
            i += 1;
        }
        let ghost start = order@;
        proof {
            lemma_identity_permutation(elements as nat);
        }
        shuffle(&mut order, rng);
        proof {
            lemma_same_multiset_unique_bounded(start, order@, elements as int);
        }
        let tied_len = elements - 1;
        let mut tied: Vec<bool> = Vec::with_capacity(tied_len);
        let mut j: usize = 0;
        while j < tied_len
            invariant
                j <= tied_len,
                tied@.len() == j,
            decreases tied_len - j,
        {
            tied.push(random_bool(rng));
            j += 1;
        }
        Tied::new(order, tied)
    }

}

impl<'a> TiedIRef<'a> {
    /// The number of elements that the order ranks a subset of.
    pub closed spec fn elements_spec(&self) -> nat {
        self.elements as nat
    }

    /// The tie flags: flag `i` tells whether rank `i` is tied with rank `i + 1`.
    pub closed spec fn ties(&self) -> Seq<bool> {
        self.tied@
    }

    #[verifier::type_invariant]
    pub(crate) open spec fn inv(&self) -> bool {
        unique_bounded(self.elements_spec() as int, self@) && self.ties().len() == tie_len(
            self@.len(),
        )
    }

    /// Creates a tied order of a subset of `elements` elements.
    pub fn new(elements: usize, order: &'a [usize], tied: &'a [bool]) -> (r: Self)
        requires
            unique_bounded(elements as int, order@),
            tied@.len() == tie_len(order@.len()),
        ensures
            r.elements_spec() == elements,
            r@ == order@,
            r.ties() == tied@,
    {
        TiedIRef { elements, order, tied }
    }

    /// The number of elements that the order ranks a subset of.
    pub fn elements(&self) -> (r: usize)
        ensures
            r == self.elements_spec(),
    {
        self.elements
    }

    /// The ranked elements, highest first.
    pub fn order(&self) -> (r: &'a [usize])
        ensures
            r@ == self@,
    {
        self.order
    }

    /// The tie flags.
    pub fn tied(&self) -> (r: &'a [bool])
        ensures
            r@ == self.ties(),
    {
        self.tied
    }

    /// The highest tie group.
    pub fn winners(&self) -> (r: &'a [usize])
        ensures
            is_top_group_len(self.ties(), self@.len(), r@.len()),
            r@ == self@.subrange(0, r@.len() as int),
    {
        proof {
            use_type_invariant(self);
        }
        let w = top_group_len(self.tied, self.order.len());
        vstd::slice::slice_subrange(self.order, 0, w)
    }
}

impl Order for Tied {
    open spec fn elements_spec(&self) -> nat {
        self@.len()
    }

    open spec fn len_spec(&self) -> nat {
        self@.len()
    }

    /// `i` lies below `j` where its tie group comes after that of `j`; elements of one
    /// tie group are related to none of each other.
    open spec fn below_spec(&self, i: int, j: int) -> bool {
        group_of(self.ties(), position(self@, j as usize)) < group_of(
            self.ties(),
            position(self@, i as usize),
        )
    }

    fn elements(&self) -> (r: usize) {
        self.order.len()
    }

    fn len(&self) -> (r: usize) {
        self.order.len()
    }

    fn to_partial(self) -> (r: PartialOrder) {
        proof {
            use_type_invariant(&self);
        }
        let n = self.order.len();
        let ghost s = self@;
        let ghost t = self.ties();
        let mut groups: Vec<usize> = Vec::with_capacity(n);
        let mut g: usize = 0;
        let mut i: usize = 0;
        while i < n
            invariant
                n == s.len(),
                s == self.order@,
                t == self.tied@,
                t.len() == tie_len(n as nat),
                i <= n,
                i < n ==> g == group_of(t, i as int),
                groups@.len() == i,
                forall|k: int| 0 <= k < i ==> #[trigger] groups@[k] == group_of(t, k),
            decreases n - i,
        {
            proof {
                lemma_group_of_bound(t, i as int);
            }
            groups.push(g);
            if i + 1 < n && !self.tied[i] {
                g += 1;
            }
            i += 1;
        }
        let mut manual = PartialOrderManual::new(n);
        let mut q: usize = 0;
        while q < n
            invariant
                manual.wf(),
                manual.elements_spec() == n,
                n == s.len(),
                s == self.order@,
                is_permutation(s),
                groups@.len() == n,
                forall|k: int| 0 <= k < n ==> #[trigger] groups@[k] == group_of(t, k),
                q <= n,
                forall|qq: int, pp: int|
                    0 <= qq < n && 0 <= pp < n ==> #[trigger] manual.below(s[qq] as int, s[pp] as int)
                        == (group_of(t, pp) < group_of(t, qq) && qq < q),
            decreases n - q,
        {
            let mut p: usize = 0;
            while p < n
                invariant
                    manual.wf(),
                    manual.elements_spec() == n,
                    n == s.len(),
                    s == self.order@,
                    is_permutation(s),
                    groups@.len() == n,
                    forall|k: int| 0 <= k < n ==> #[trigger] groups@[k] == group_of(t, k),
                    q < n,
                    p <= n,
                    forall|qq: int, pp: int|
                        0 <= qq < n && 0 <= pp < n ==> #[trigger] manual.below(s[qq] as int, s[pp] as int)
                            == (group_of(t, pp) < group_of(t, qq) && (qq < q || (qq == q && pp
                            < p))),
                decreases n - p,
            {
                if groups[p] < groups[q] {
                    manual.set(self.order[q], self.order[p]);
                    proof {
                        assert forall|qq: int, pp: int| 0 <= qq < n && 0 <= pp < n implies #[trigger] manual.below(
                            s[qq] as int,
                            s[pp] as int,
                        ) == (group_of(t, pp) < group_of(t, qq) && (qq < q || (qq == q && pp < p
                            + 1))) by {
                            if s[qq] == s[q as int] {
                                assert(qq == q);
                            }
                            if s[pp] == s[p as int] {
                                assert(pp == p);
                            }
                        }
                    }
                }
                p += 1;
            }
            q += 1;
        }
        proof {
            assert forall|x: int, y: int| 0 <= x < n && 0 <= y < n implies #[trigger] manual.below(
                x,
                y,
            ) == self.below_spec(x, y) by {
                lemma_permutation_contains(s, x as usize);
                lemma_permutation_contains(s, y as usize);
                let px = choose|k: int| 0 <= k < n && s[k] == x as usize;
                let py = choose|k: int| 0 <= k < n && s[k] == y as usize;
                lemma_position(s, x as usize, px);
                lemma_position(s, y as usize, py);
                assert(manual.below(s[px] as int, s[py] as int) == (group_of(t, py) < group_of(t, px)));
            }
        }
        manual.finish_unchecked()
    }
}

impl<'a> OrderRef for TiedRef<'a> {
    type Owned = Tied;

    open spec fn is_copy(&self, o: &Tied) -> bool {
        o@ == self@ && o.ties() == self.ties()
    }

    fn to_owned(self) -> (r: Tied) {
        proof {
            use_type_invariant(&self);
        }
        let mut order = Vec::new();
        append_indices(&mut order, self.order);
        let mut tied = Vec::new();
        append_flags(&mut tied, self.tied);
        proof {
            assert(order@ =~= self@);
            assert(tied@ =~= self.ties());
        }
        Tied { order, tied }
    }
}

impl<'a> OrderOwned<'a> for Tied {
    type Ref = TiedRef<'a>;

    open spec fn is_view(&self, r: &TiedRef<'a>) -> bool {
        r@ == self@ && r.ties() == self.ties()
    }

    fn as_ref(&'a self) -> (r: TiedRef<'a>) {
        proof {
            use_type_invariant(self);
        }
        TiedRef { order: self.order.as_slice(), tied: self.tied.as_slice() }
    }
}

impl Tied {
    /// The tied order of a cardinal order: elements by score, highest first, with
    /// adjacent ranks tied exactly where their scores are equal.
    pub fn from_cardinal(value: CardinalRef) -> (r: Tied)
        ensures
            r@.len() == value@.len(),
            forall|k: int|
                0 <= k < r@.len() - 1 ==> value@[#[trigger] r@[k] as int] >= value@[r@[k + 1] as int],
            forall|k: int|
                0 <= k < r@.len() - 1 ==> #[trigger] r.ties()[k] == (value@[r@[k] as int]
                    == value@[r@[k + 1] as int]),
    {
        let scores = value.values();
        let n = scores.len();
        let mut order: Vec<usize> = Vec::with_capacity(n);
        let mut keys: Vec<usize> = Vec::with_capacity(n);
        let mut i: usize = 0;
        while i < n
            invariant
                n == scores@.len(),
                i <= n,
                order@ =~= identity(i as nat),
                keys@.len() == i,
                forall|k: int| 0 <= k < i ==> #[trigger] keys@[k] == usize::MAX - scores@[k],
            decreases n - i,
        {
            order.push(i);
            keys.push(usize::MAX - scores[i]);
            i += 1;
        }
        let ghost before_order = order@;
        let ghost before_keys = keys@;
        sort_using(order.as_mut_slice(), keys.as_mut_slice());
        proof {
            let p = choose|p: Seq<usize>| reordered(before_order, before_keys, order@, keys@, p);
            assert(order@ =~= p);
            assert forall|k: int| 0 <= k < n implies #[trigger] keys@[k] == usize::MAX
                - scores@[order@[k] as int] by {}
            assert forall|k: int| 0 <= k < n - 1 implies scores@[#[trigger] order@[k] as int]
                >= scores@[order@[k + 1] as int] by {
                assert(keys@[k].key() <= keys@[k + 1].key());
            }
        }
        let mut tied: Vec<bool> = Vec::new();
        let mut k: usize = 0;
        while k + 1 < n
            invariant
                n == scores@.len(),
                order@.len() == n,
                forall|q: int| 0 <= q < n ==> #[trigger] order@[q] < n,
                k <= n,
                n > 0 ==> k < n,
                tied@.len() == k,
                forall|q: int|
                    0 <= q < k ==> #[trigger] tied@[q] == (scores@[order@[q] as int]
                        == scores@[order@[q + 1] as int]),
            decreases n - k,
        {
            tied.push(scores[order[k]] == scores[order[k + 1]]);
            k += 1;
        }
        Tied::new(order, tied)
    }
}

impl Clone for Tied {
    fn clone(&self) -> (r: Self)
        ensures
            r@ == self@,
            r.ties() == self.ties(),
    {
        self.as_ref().to_owned()
    }
}

} // verus!
