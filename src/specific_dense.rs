//! A packed collection of specific orders over the same elements.
use vstd::prelude::*;
use crate::specific::Specific;

verus! {

/// Specific orders of `elements` elements, stored as their winners.
#[derive(Debug)]
pub struct SpecificDense {
    pub(crate) orders: Vec<usize>,
    pub(crate) elements: usize,
}

impl SpecificDense {
    /// The number of elements of every order.
    pub open(crate) spec fn elements_spec(&self) -> nat {
        self.elements as nat
    }

    /// The winner of each stored order.
    pub open(crate) spec fn orders_view(&self) -> Seq<usize> {
        self.orders@
    }

    /// Every winner is an element.
    pub open(crate) spec fn wf(&self) -> bool {
        forall|i: int| 0 <= i < self.orders@.len() ==> #[trigger] self.orders@[i] < self.elements
    }

    /// An empty collection of orders of `elements` elements.
    pub fn new(elements: usize) -> (r: Self)
        ensures
            r.wf(),
            r.elements_spec() == elements,
            r.orders_view().len() == 0,
    {
        SpecificDense { orders: Vec::new(), elements }
    }

    /// The number of elements of every order.
    pub fn elements(&self) -> (r: usize)
        ensures
            r == self.elements_spec(),
    {
        self.elements
    }

    /// The number of stored orders.
    pub fn len(&self) -> (r: usize)
        ensures
            r == self.orders_view().len(),
    {
        self.orders.len()
    }

    /// Whether no order is stored.
    pub fn is_empty(&self) -> (r: bool)
        ensures
            r == (self.orders_view().len() == 0),
    {
        self.orders.len() == 0
    }

    /// Order `i`, or `None` where there is no such order.
    pub fn try_get(&self, i: usize) -> (r: Option<Specific>)
        requires
            self.wf(),
        ensures
            r is Some <==> i < self.orders_view().len(),
            r matches Some(s) ==> s.value_spec() == self.orders_view()[i as int]
                && s.elements_spec() == self.elements_spec(),
    {
        if i < self.orders.len() {
            Some(Specific::new(self.orders[i], self.elements))
        } else {
            None
        }
    }
}

} // verus!
