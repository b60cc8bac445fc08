//! Chains: strict orders of all elements, or of a subset of them, highest first.
use vstd::prelude::*;
use rand::rngs::StdRng;
use crate::order::{Order, OrderOwned, OrderRef};
use crate::partial_order::{PartialOrder, PartialOrderManual};
use crate::perm::{
    append_indices, is_permutation, lemma_position, position, unique_and_bounded, unique_bounded,
};
use crate::random::{choose_multiple, random_below, shuffle};
use crate::tied::{tie_len, TiedIRef};

verus! {

/// A borrowed order of all elements, highest ranked first.
#[derive(Debug, Clone, Copy)]
pub struct ChainRef<'a> {
    pub(crate) order: &'a [usize],
}

/// An owned order of all elements, highest ranked first.
#[derive(Debug, PartialEq, Eq)]
pub struct Chain {
    pub(crate) order: Vec<usize>,
}

/// A borrowed order of a subset of `elements` elements, highest ranked first.
/// Elements that are left out rank below every element that is present.
#[derive(Debug, Clone, Copy, PartialEq, Eq)]
pub struct ChainIRef<'a> {
    pub(crate) elements: usize,
    pub(crate) order: &'a [usize],
}

/// An owned order of a subset of `elements` elements, highest ranked first.
#[derive(Debug, PartialEq, Eq)]
pub struct ChainI {
    pub(crate) elements: usize,
    pub(crate) order: Vec<usize>,
}

impl<'a> View for ChainRef<'a> {
    type V = Seq<usize>;

    closed spec fn view(&self) -> Seq<usize> {
        self.order@
    }
}

impl View for Chain {
    type V = Seq<usize>;

    closed spec fn view(&self) -> Seq<usize> {
        self.order@
    }
}

impl<'a> View for ChainIRef<'a> {
    type V = Seq<usize>;

    closed spec fn view(&self) -> Seq<usize> {
        self.order@
    }
}

impl View for ChainI {
    type V = Seq<usize>;

    closed spec fn view(&self) -> Seq<usize> {
        self.order@
    }
}

impl<'a> ChainRef<'a> {
    #[verifier::type_invariant]
    pub(crate) open spec fn inv(&self) -> bool {
        is_permutation(self@)
    }

    /// Creates a chain from a permutation of `0..v.len()`.
    pub fn new(v: &'a [usize]) -> (r: Self)
        requires
            is_permutation(v@),
        ensures
            r@ == v@,
    {
        ChainRef { order: v }
    }

    /// Creates a chain from `v`, or `None` where `v` is not a permutation of `0..v.len()`.
    pub fn try_new(v: &'a [usize]) -> (r: Option<Self>)
        ensures
            r is Some <==> is_permutation(v@),
            r matches Some(c) ==> c@ == v@,
    {
        if unique_and_bounded(v.len(), v) {
            Some(ChainRef { order: v })
        } else {
            None
        }
    }

    /// Creates a chain from a permutation, which the caller has already checked.
    pub fn new_unchecked(v: &'a [usize]) -> (r: Self)
        requires
            is_permutation(v@),
        ensures
            r@ == v@,
    {
        ChainRef { order: v }
    }

    /// The number of elements, all of which are ranked.
    pub fn elements(&self) -> (r: usize)
        ensures
            r == self@.len(),
    {
        self.order.len()
    }

    /// The indices of the chain.
    pub fn order(&self) -> (r: &'a [usize])
        ensures
            r@ == self@,
    {
        self.order
    }

    /// The `n` highest ranked elements.
    pub fn top(&self, n: usize) -> (r: &'a [usize])
        requires
            n <= self@.len(),
        ensures
            r@ == self@.subrange(0, n as int),
    {
        vstd::slice::slice_subrange(self.order, 0, n)
    }

    /// The same order seen as a chain that happens to rank every element.
    pub fn to_incomplete(self) -> (r: ChainIRef<'a>)
        ensures
            r.elements_spec() == self@.len(),
            r@ == self@,
    {
        proof {
            use_type_invariant(&self);
        }
        ChainIRef { elements: self.order.len(), order: self.order }
    }

}

impl Chain {
    #[verifier::type_invariant]
    pub(crate) open spec fn inv(&self) -> bool {
        is_permutation(self@)
    }

    /// Creates a chain from a permutation of `0..v.len()`.
    pub fn new(v: Vec<usize>) -> (r: Self)
        requires
            is_permutation(v@),
        ensures
            r@ == v@,
    {
        Chain { order: v }
    }

    /// The indices of the chain.
    pub fn order(&self) -> (r: &[usize])
        ensures
            r@ == self@,
    {
        self.order.as_slice()
    }

}

impl<'a> ChainIRef<'a> {
    /// The number of elements that the order ranks a subset of.
    pub closed spec fn elements_spec(&self) -> nat {
        self.elements as nat
    }

    #[verifier::type_invariant]
    pub(crate) open spec fn inv(&self) -> bool {
        unique_bounded(self.elements_spec() as int, self@)
    }

    /// Creates a chain over `elements` elements.
    pub fn new(elements: usize, order: &'a [usize]) -> (r: Self)
        requires
            unique_bounded(elements as int, order@),
        ensures
            r.elements_spec() == elements,
            r@ == order@,
    {
        ChainIRef { elements, order }
    }

    /// Creates a chain over `elements` elements, or `None` where `order` holds an
    /// index out of range or one index twice.
    pub fn try_new(elements: usize, order: &'a [usize]) -> (r: Option<Self>)
        ensures
            r is Some <==> unique_bounded(elements as int, order@),
            r matches Some(c) ==> c.elements_spec() == elements && c@ == order@,
    {
        if unique_and_bounded(elements, order) {
            Some(ChainIRef { elements, order })
        } else {
            None
        }
    }

    /// Creates a chain over `elements` elements from indices the caller has checked.
    pub fn new_unchecked(elements: usize, order: &'a [usize]) -> (r: Self)
        requires
            unique_bounded(elements as int, order@),
        ensures
            r.elements_spec() == elements,
            r@ == order@,
    {
        ChainIRef { elements, order }
    }

    /// The number of elements that the order ranks a subset of.
    pub fn elements(&self) -> (r: usize)
        ensures
            r == self.elements_spec(),
    {
        self.elements
    }

    /// The ranked elements, highest first.
    pub fn order(&self) -> (r: &'a [usize])
        ensures
            r@ == self@,
    {
        self.order
    }

    /// The number of ranked elements.
    pub fn len(&self) -> (r: usize)
        ensures
            r == self@.len(),
    {
        self.order.len()
    }

    /// Whether no element is ranked.
    pub fn is_empty(&self) -> (r: bool)
        ensures
            r == (self@.len() == 0),
    {
        self.len() == 0
    }

    /// The chain of the `n` highest ranked elements.
    pub fn top(&self, n: usize) -> (r: Self)
        requires
            n <= self@.len(),
        ensures
            r.elements_spec() == self.elements_spec(),
            r@ == self@.subrange(0, n as int),
    {
        proof {
            use_type_invariant(self);
        }
        let s = vstd::slice::slice_subrange(self.order, 0, n);
        proof {
            assert(s@.no_duplicates());
        }
        ChainIRef { elements: self.elements, order: s }
    }

    /// The highest ranked element.
    pub fn winner(&self) -> (r: usize)
        requires
            self@.len() > 0,
        ensures
            r == self@[0],
    {
        self.order[0]
    }

    /// The same chain with tie flags `tied` between adjacent ranks.
    pub fn to_tied(self, tied: &'a [bool]) -> (r: TiedIRef<'a>)
        requires
            tied@.len() == tie_len(self@.len()),
        ensures
            r.elements_spec() == self.elements_spec(),
            r@ == self@,
            r.ties() == tied@,
    {
        proof {
            use_type_invariant(&self);
        }
        TiedIRef::new(self.elements, self.order, tied)
    }

}

impl ChainI {
    /// The number of elements that the order ranks a subset of.
    pub closed spec fn elements_spec(&self) -> nat {
        self.elements as nat
    }

    #[verifier::type_invariant]
    pub(crate) open spec fn inv(&self) -> bool {
        unique_bounded(self.elements_spec() as int, self@)
    }

    /// Creates a chain over `elements` elements.
    pub fn new(elements: usize, order: Vec<usize>) -> (r: Self)
        requires
            unique_bounded(elements as int, order@),
        ensures
            r.elements_spec() == elements,
            r@ == order@,
    {
        ChainI { elements, order }
    }

    /// Creates a chain over `elements` elements, or `None` where `order` holds an
    /// index out of range or one index twice.
    pub fn try_new(elements: usize, order: Vec<usize>) -> (r: Option<Self>)
        ensures
            r is Some <==> unique_bounded(elements as int, order@),
            r matches Some(c) ==> c.elements_spec() == elements && c@ == order@,
    {
        if unique_and_bounded(elements, order.as_slice()) {
            Some(ChainI { elements, order })
        } else {
            None
        }
    }

    /// Creates a chain over `elements` elements from indices the caller has checked.
    pub fn new_unchecked(elements: usize, order: Vec<usize>) -> (r: Self)
        requires
            unique_bounded(elements as int, order@),
        ensures
            r.elements_spec() == elements,
            r@ == order@,
    {
        ChainI { elements, order }
    }

    /// Makes `self` a copy of `source`.
    pub fn clone_from_ref(&mut self, source: ChainIRef)
        ensures
            final(self).elements_spec() == source.elements_spec(),
            final(self)@ == source@,
    {
        proof {
            use_type_invariant(&source);
        }
        let mut order = Vec::new();
        append_indices(&mut order, source.order);
        proof {
            assert(order@ =~= source@);
        }
        *self = ChainI { elements: source.elements, order };
    }

    /// A random chain over `elements` elements: a random number of them, fewer
    /// than `elements`, in random order. With no elements the chain is empty.
    pub fn random(rng: &mut StdRng, elements: usize) -> (r: ChainI)
        ensures
            r.elements_spec() == elements,
            unique_bounded(elements as int, r@),
            elements == 0 ==> r@.len() == 0,
            elements > 0 ==> r@.len() < elements,
    {
        if elements == 0 {
            ChainI { order: Vec::new(), elements }
        } else {
            let len = random_below(rng, elements);
            let mut order = choose_multiple(rng, elements, len);
            let ghost chosen = order@;
            shuffle(&mut order, rng);
            proof {
                crate::perm::lemma_same_multiset_unique_bounded(chosen, order@, elements as int);
            }
            ChainI { order, elements }
        }
    }

}

impl Order for ChainI {
    open spec fn elements_spec(&self) -> nat {
        self.elements_spec()
    }

    open spec fn len_spec(&self) -> nat {
        self@.len()
    }

    /// `i` lies below `j` where both are ranked and `i` comes later. Elements that are
    /// left out are related to nothing.
    open spec fn below_spec(&self, i: int, j: int) -> bool {
        self@.contains(i as usize) && self@.contains(j as usize) && position(self@, j as usize)
            < position(self@, i as usize)
    }

    fn elements(&self) -> (r: usize) {
        self.elements
    }

    fn len(&self) -> (r: usize) {
        self.order.len()
    }

    fn to_partial(self) -> (r: PartialOrder) {
        proof {
            use_type_invariant(&self);
        }
        let n = self.elements;
        let len = self.order.len();
        let ghost s = self@;
        let mut manual = PartialOrderManual::new(n);
        let mut i1: usize = 0;
        while i1 < len
            invariant
                manual.wf(),
                manual.elements_spec() == n,
                n == self.elements,
                s == self@,
                s == self.order@,
                len == s.len(),
                unique_bounded(n as int, s),
                i1 <= len,
                forall|x: int, y: int|
                    0 <= x < n && 0 <= y < n ==> #[trigger] manual.below(x, y) == (s.contains(
                        x as usize,
                    ) && s.contains(y as usize) && position(s, y as usize) < position(
                        s,
                        x as usize,
                    ) && position(s, y as usize) < i1),
            decreases len - i1,
        {
            let mut i2: usize = i1 + 1;
            while i2 < len
                invariant
                    manual.wf(),
                    manual.elements_spec() == n,
                    n == self.elements,
                    s == self.order@,
                    len == s.len(),
                    unique_bounded(n as int, s),
                    i1 < len,
                    i1 < i2 <= len,
                    forall|x: int, y: int|
                        0 <= x < n && 0 <= y < n ==> #[trigger] manual.below(x, y) == (s.contains(
                            x as usize,
                        ) && s.contains(y as usize) && position(s, y as usize) < position(
                            s,
                            x as usize,
                        ) && (position(s, y as usize) < i1 || (position(s, y as usize) == i1
                            && position(s, x as usize) < i2))),
                decreases len - i2,
            {
                let ghost prev = manual;
                manual.set(self.order[i2], self.order[i1]);
                proof {
                    lemma_position(s, s[i1 as int], i1 as int);
                    lemma_position(s, s[i2 as int], i2 as int);
                    assert forall|x: int, y: int| 0 <= x < n && 0 <= y < n implies #[trigger] manual.below(
                        x,
                        y,
                    ) == (s.contains(x as usize) && s.contains(y as usize) && position(
                        s,
                        y as usize,
                    ) < position(s, x as usize) && (position(s, y as usize) < i1 || (position(
                        s,
                        y as usize,
                    ) == i1 && position(s, x as usize) < i2 + 1))) by {
                        if s.contains(x as usize) {
                            let px = choose|p: int| 0 <= p < s.len() && s[p] == x as usize;
                            lemma_position(s, x as usize, px);
                        }
                        if s.contains(y as usize) {
                            let py = choose|p: int| 0 <= p < s.len() && s[p] == y as usize;
                            lemma_position(s, y as usize, py);
                        }
                    }
                }
                i2 += 1;
            }
            proof {
                assert forall|x: int, y: int| 0 <= x < n && 0 <= y < n implies #[trigger] manual.below(
                    x,
                    y,
                ) == (s.contains(x as usize) && s.contains(y as usize) && position(s, y as usize)
                    < position(s, x as usize) && position(s, y as usize) < i1 + 1) by {
                    if s.contains(x as usize) {
                        let px = choose|p: int| 0 <= p < s.len() && s[p] == x as usize;
                        lemma_position(s, x as usize, px);
                    }
                }
            }
            i1 += 1;
        }
        proof {
            assert forall|x: int, y: int| 0 <= x < n && 0 <= y < n implies #[trigger] manual.below(
                x,
                y,
            ) == self.below_spec(x, y) by {
                if s.contains(y as usize) {
                    let py = choose|p: int| 0 <= p < s.len() && s[p] == y as usize;
                    lemma_position(s, y as usize, py);
                }
            }
        }
        manual.finish_unchecked()
    }
}

impl<'a> OrderRef for ChainRef<'a> {
    type Owned = Chain;

    open spec fn is_copy(&self, o: &Chain) -> bool {
        o@ == self@
    }

    fn to_owned(self) -> (r: Chain) {
        proof {
            use_type_invariant(&self);
        }
        let mut order = Vec::new();
        append_indices(&mut order, self.order);
        proof {
            assert(order@ =~= self@);
        }
        Chain { order }
    }
}

impl<'a> OrderOwned<'a> for Chain {
    type Ref = ChainRef<'a>;

    open spec fn is_view(&self, r: &ChainRef<'a>) -> bool {
        r@ == self@
    }

    fn as_ref(&'a self) -> (r: ChainRef<'a>) {
        proof {
            use_type_invariant(self);
        }
        ChainRef { order: self.order.as_slice() }
    }
}

impl<'a> OrderRef for ChainIRef<'a> {
    type Owned = ChainI;

    open spec fn is_copy(&self, o: &ChainI) -> bool {
        o.elements_spec() == self.elements_spec() && o@ == self@
    }

    fn to_owned(self) -> (r: ChainI) {
        proof {
            use_type_invariant(&self);
        }
        let mut order = Vec::new();
        append_indices(&mut order, self.order);
        proof {
            assert(order@ =~= self@);
        }
        ChainI { elements: self.elements, order }
    }
}

impl<'a> OrderOwned<'a> for ChainI {
    type Ref = ChainIRef<'a>;

    open spec fn is_view(&self, r: &ChainIRef<'a>) -> bool {
        r.elements_spec() == self.elements_spec() && r@ == self@
    }

    fn as_ref(&'a self) -> (r: ChainIRef<'a>) {
        proof {
            use_type_invariant(self);
        }
        ChainIRef { elements: self.elements, order: self.order.as_slice() }
    }
}

impl Clone for ChainI {
    fn clone(&self) -> (r: Self)
        ensures
            r.elements_spec() == self.elements_spec(),
            r@ == self@,
    {
        self.as_ref().to_owned()
    }
}

} // verus!
