//! Cardinal orders: a score for each element, higher ranking higher.
use vstd::prelude::*;
use crate::binary::Binary;
use crate::order::{OrderOwned, OrderRef};
use crate::perm::append_indices;

verus! {

/// A borrowed cardinal order: the score of each element.
#[derive(Debug, Clone, Copy)]
pub struct CardinalRef<'a> {
    pub(crate) values: &'a [usize],
}

/// An owned cardinal order: the score of each element.
#[derive(Debug, PartialEq, Eq)]
pub struct Cardinal {
    pub(crate) values: Vec<usize>,
}

impl<'a> View for CardinalRef<'a> {
    type V = Seq<usize>;

    closed spec fn view(&self) -> Seq<usize> {
        self.values@
    }
}

impl View for Cardinal {
    type V = Seq<usize>;

    closed spec fn view(&self) -> Seq<usize> {
        self.values@
    }
}

impl<'a> CardinalRef<'a> {
    /// The order that gives element `i` the score `s[i]`.
    pub fn new(s: &'a [usize]) -> (r: Self)
        ensures
            r@ == s@,
    {
        CardinalRef { values: s }
    }

    /// The number of elements.
    pub fn len(&self) -> (r: usize)
        ensures
            r == self@.len(),
    {
        self.values.len()
    }

    /// Whether there are no elements.
    pub fn is_empty(&self) -> (r: bool)
        ensures
            r == (self@.len() == 0),
    {
        self.len() == 0
    }

    /// The score of each element.
    pub fn values(&self) -> (r: &'a [usize])
        ensures
            r@ == self@,
    {
        self.values
    }

    /// The binary order that ranks high the elements scoring at least `cutoff`.
    pub fn to_binary(&self, cutoff: usize) -> (r: Binary)
        ensures
            r@ == self@.map_values(|x: usize| x >= cutoff),
    {
        let mut values: Vec<bool> = Vec::with_capacity(self.values.len());
        let mut i: usize = 0;
        while i < self.values.len()
            invariant
                i <= self@.len(),
                self@ == self.values@,
                values@ =~= self@.subrange(0, i as int).map_values(|x: usize| x >= cutoff),
            decreases self@.len() - i,
        {
            values.push(self.values[i] >= cutoff);
            i += 1;
        }
        proof {
            assert(self@.subrange(0, self@.len() as int) =~= self@);
        }
        Binary::new(values)
    }

}

impl Cardinal {
    /// The order that gives element `i` the score `values[i]`.
    pub fn new(values: Vec<usize>) -> (r: Self)
        ensures
            r@ == values@,
    {
        Cardinal { values }
    }

    /// The score of each element.
    pub fn values(&self) -> (r: &[usize])
        ensures
            r@ == self@,
    {
        self.values.as_slice()
    }

}

impl<'a> OrderRef for CardinalRef<'a> {
    type Owned = Cardinal;

    open spec fn is_copy(&self, o: &Cardinal) -> bool {
        o@ == self@
    }

    fn to_owned(self) -> (r: Cardinal) {
        let mut values = Vec::new();
        append_indices(&mut values, self.values);
        proof {
            assert(values@ =~= self@);
        }
        Cardinal { values }
    }
}

impl<'a> OrderOwned<'a> for Cardinal {
    type Ref = CardinalRef<'a>;

    open spec fn is_view(&self, r: &CardinalRef<'a>) -> bool {
        r@ == self@
    }

    fn as_ref(&'a self) -> (r: CardinalRef<'a>) {
        CardinalRef { values: self.values.as_slice() }
    }
}

} // verus!
