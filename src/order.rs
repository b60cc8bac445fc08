//! What every owned order offers, and how owned orders and borrowed views of them
//! relate.
use vstd::prelude::*;
use crate::partial_order::PartialOrder;

verus! {

/// An order over a finite universe of elements.
pub trait Order: Sized {
    /// The number of elements that can be in this order.
    spec fn elements_spec(&self) -> nat;

    /// The number of elements currently part of this order.
    spec fn len_spec(&self) -> nat;

    /// Whether the order places element `i` strictly below element `j`.
    spec fn below_spec(&self, i: int, j: int) -> bool;

    /// The number of elements that can be in this order.
    fn elements(&self) -> (r: usize)
        ensures
            r == self.elements_spec(),
    ;

    /// The number of elements currently part of this order.
    fn len(&self) -> (r: usize)
        ensures
            r == self.len_spec(),
    ;

    /// Whether no element is part of this order.
    fn is_empty(&self) -> (r: bool)
        ensures
            r == (self.len_spec() == 0),
    {
        self.len() == 0
    }

    /// The order as a general partial order.
    fn to_partial(self) -> (r: PartialOrder)
        requires
            self.elements_spec() * self.elements_spec() <= usize::MAX,
        ensures
            r.elements_spec() == self.elements_spec(),
            forall|i: int, j: int|
                0 <= i < self.elements_spec() && 0 <= j < self.elements_spec() ==> #[trigger] r.below(
                    i,
                    j,
                ) == self.below_spec(i, j),
    ;
}

/// An owned order that can be viewed through a borrowed form.
pub trait OrderOwned<'a> {
    /// The borrowed form.
    type Ref;

    /// Whether `r` views the same order as `self`.
    spec fn is_view(&self, r: &Self::Ref) -> bool;

    /// Borrows the order.
    fn as_ref(&'a self) -> (r: Self::Ref)
        ensures
            self.is_view(&r),
    ;
}

/// A borrowed order that can be copied into an owned one.
pub trait OrderRef: Sized {
    /// The owned form.
    type Owned;

    /// Whether `o` holds the same order as `self`.
    spec fn is_copy(&self, o: &Self::Owned) -> bool;

    /// Copies the order into an owned one.
    fn to_owned(self) -> (r: Self::Owned)
        ensures
            self.is_copy(&r),
    ;
}

} // verus!
