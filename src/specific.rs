//! Specific orders: one winning element above all others, which are tied.
use vstd::prelude::*;
use rand::rngs::StdRng;
use crate::order::{Order, OrderOwned};
use crate::partial_order::{PartialOrder, PartialOrderManual};
use crate::random::random_below;

verus! {

/// One distinguished element of `elements` ranked above every other element.
#[derive(Debug, Clone, Copy)]
pub struct Specific {
    pub(crate) value: usize,
    pub(crate) elements: usize,
}

impl Specific {
    /// The winning element.
    pub closed spec fn value_spec(&self) -> nat {
        self.value as nat
    }

    /// The number of elements.
    pub closed spec fn elements_spec(&self) -> nat {
        self.elements as nat
    }

    #[verifier::type_invariant]
    pub(crate) open spec fn inv(&self) -> bool {
        self.value_spec() < self.elements_spec()
    }

    /// The order of `elements` elements won by `value`.
    pub fn new(value: usize, elements: usize) -> (r: Self)
        requires
            value < elements,
        ensures
            r.value_spec() == value,
            r.elements_spec() == elements,
    {
        Specific { value, elements }
    }

    /// An order of `elements` elements won by a random one of them.
    pub fn random(rng: &mut StdRng, elements: usize) -> (r: Self)
        requires
            elements > 0,
        ensures
            r.elements_spec() == elements,
            r.value_spec() < elements,
    {
        let value = random_below(rng, elements);
        Specific { value, elements }
    }

    /// The winning element.
    pub fn value(&self) -> (r: usize)
        ensures
            r == self.value_spec(),
    {
        self.value
    }

}

impl Order for Specific {
    open spec fn elements_spec(&self) -> nat {
        self.elements_spec()
    }

    open spec fn len_spec(&self) -> nat {
        1
    }

    /// Every other element lies below the winner, and no other pair is related.
    open spec fn below_spec(&self, i: int, j: int) -> bool {
        j == self.value_spec() && i != j
    }

    fn elements(&self) -> (r: usize) {
        self.elements
    }

    fn len(&self) -> (r: usize) {
        1
    }

    fn to_partial(self) -> (r: PartialOrder) {
        proof {
            use_type_invariant(&self);
        }
        let n = self.elements;
        let mut manual = PartialOrderManual::new(n);
        let mut i: usize = 0;
        while i < n
            invariant
                manual.wf(),
                manual.elements_spec() == n,
                n == self.elements,
                self.value < n,
                i <= n,
                forall|x: int, y: int|
                    0 <= x < n && 0 <= y < n ==> #[trigger] manual.below(x, y) == (y
                        == self.value && x != y && x < i),
            decreases n - i,
        {
            if i != self.value {
                manual.set(i, self.value);
            }
            i += 1;
        }
        manual.finish_unchecked()
    }
}

impl<'a> OrderOwned<'a> for Specific {
    type Ref = &'a Specific;

    open spec fn is_view(&self, r: &&'a Specific) -> bool {
        **r == *self
    }

    fn as_ref(&'a self) -> (r: &'a Specific) {
        self
    }
}

} // verus!
