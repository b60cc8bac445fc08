//! Binary orders: each element ranked either high or low.
use vstd::prelude::*;
use crate::order::{OrderOwned, OrderRef};
use crate::perm::append_flags;

verus! {

/// A borrowed binary order: `true` for each element ranked high.
#[derive(Debug, Clone, Copy)]
pub struct BinaryRef<'a> {
    pub(crate) values: &'a [bool],
}

/// An owned binary order: `true` for each element ranked high.
#[derive(Debug, PartialEq, Eq)]
pub struct Binary {
    pub(crate) values: Vec<bool>,
}

impl<'a> View for BinaryRef<'a> {
    type V = Seq<bool>;

    closed spec fn view(&self) -> Seq<bool> {
        self.values@
    }
}

impl View for Binary {
    type V = Seq<bool>;

    closed spec fn view(&self) -> Seq<bool> {
        self.values@
    }
}

impl<'a> BinaryRef<'a> {
    /// The order that ranks element `i` high where `v[i]` holds.
    pub fn new(v: &'a [bool]) -> (r: Self)
        ensures
            r@ == v@,
    {
        BinaryRef { values: v }
    }

    /// The number of elements.
    pub fn len(&self) -> (r: usize)
        ensures
            r == self@.len(),
    {
        self.values.len()
    }

    /// Whether there are no elements.
    pub fn is_empty(&self) -> (r: bool)
        ensures
            r == (self@.len() == 0),
    {
        self.len() == 0
    }

    /// The rank of each element.
    pub fn values(&self) -> (r: &'a [bool])
        ensures
            r@ == self@,
    {
        self.values
    }

}

impl Binary {
    /// The order that ranks element `i` high where `values[i]` holds.
    pub fn new(values: Vec<bool>) -> (r: Self)
        ensures
            r@ == values@,
    {
        Binary { values }
    }

    /// The rank of each element.
    pub fn values(&self) -> (r: &[bool])
        ensures
            r@ == self@,
    {
        self.values.as_slice()
    }

}

impl<'a> OrderRef for BinaryRef<'a> {
    type Owned = Binary;

    open spec fn is_copy(&self, o: &Binary) -> bool {
        o@ == self@
    }

    fn to_owned(self) -> (r: Binary) {
        let mut values = Vec::new();
        append_flags(&mut values, self.values);
        proof {
            assert(values@ =~= self@);
        }
        Binary { values }
    }
}

impl<'a> OrderOwned<'a> for Binary {
    type Ref = BinaryRef<'a>;

    open spec fn is_view(&self, r: &BinaryRef<'a>) -> bool {
        r@ == self@
    }

    fn as_ref(&'a self) -> (r: BinaryRef<'a>) {
        BinaryRef { values: self.values.as_slice() }
    }
}

} // verus!
