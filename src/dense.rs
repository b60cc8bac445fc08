//! What the packed collections share: their error type and the layout of orders in
//! one flat array.
use vstd::prelude::*;
use rand::rngs::StdRng;

verus! {

/// Why an order could not be pushed onto a collection.
#[derive(Debug, Clone, Copy, PartialEq, Eq, Structural)]
pub enum AddError {
    /// The pushed order has another number of elements than the collection.
    Elements,
    /// Memory for the pushed order could not be reserved.
    Alloc,
}

/// What every packed collection of orders offers.
pub trait DenseOrders<'a> {
    /// The borrowed form of a stored order.
    type Order;

    /// The collection is well formed.
    spec fn dense_wf(&self) -> bool;

    /// The number of elements of every stored order.
    spec fn dense_elements(&self) -> nat;

    /// The number of stored orders.
    spec fn dense_len(&self) -> nat;

    /// The number of elements of the universe that `o` is an order of.
    spec fn order_elements(o: &Self::Order) -> nat;

    /// The number of elements of every stored order.
    fn elements(&self) -> (r: usize)
        ensures
            r == self.dense_elements(),
    ;

    /// The number of stored orders.
    fn len(&self) -> (r: usize)
        requires
            self.dense_wf(),
        ensures
            r == self.dense_len(),
    ;

    /// Whether no order is stored.
    fn is_empty(&self) -> (r: bool)
        requires
            self.dense_wf(),
        ensures
            r == (self.dense_len() == 0),
    {
        self.len() == 0
    }

    /// Appends `v`, or fails and leaves the number of orders as it was.
    fn push(&mut self, v: Self::Order) -> (r: Result<(), AddError>)
        requires
            old(self).dense_wf(),
        ensures
            final(self).dense_wf(),
            final(self).dense_elements() == old(self).dense_elements(),
            Self::order_elements(&v) != old(self).dense_elements() ==> r matches Err(
                AddError::Elements,
            ),
            r is Ok && old(self).dense_elements() > 0 ==> final(self).dense_len() == old(
                self,
            ).dense_len() + 1,
            r is Err ==> final(self).dense_len() == old(self).dense_len(),
    ;

    /// Borrows order `i`, or `None` where there is no such order.
    fn try_get(&'a self, i: usize) -> (r: Option<Self::Order>)
        requires
            self.dense_wf(),
        ensures
            r is Some <==> i < self.dense_len(),
    ;

    /// Borrows order `i`.
    fn get(&'a self, i: usize) -> (r: Self::Order)
        requires
            self.dense_wf(),
            i < self.dense_len(),
    {
        self.try_get(i).unwrap()
    }

    /// Removes element `target` from the universe and from every stored order, or
    /// fails where `target` is not an element.
    fn remove_element(&mut self, target: usize) -> (r: Result<(), &'static str>)
        requires
            old(self).dense_wf(),
        ensures
            final(self).dense_wf(),
            r is Err <==> target >= old(self).dense_elements(),
            r is Ok ==> final(self).dense_elements() == old(self).dense_elements() - 1,
            r is Err ==> final(self).dense_elements() == old(self).dense_elements(),
    ;

    /// Appends `new_orders` uniformly random orders; nothing where there are no elements.
    fn generate_uniform(&mut self, rng: &mut StdRng, new_orders: usize)
        requires
            old(self).dense_wf(),
        ensures
            final(self).dense_wf(),
            final(self).dense_elements() == old(self).dense_elements(),
            old(self).dense_elements() > 0 ==> final(self).dense_len() == old(self).dense_len()
                + new_orders,
            old(self).dense_elements() == 0 ==> final(self).dense_len() == old(self).dense_len(),
    ;
}

/// The `i`-th block of width `w` in the flat array `s`.
pub open spec fn block<T>(s: Seq<T>, w: nat, i: int) -> Seq<T> {
    s.subrange(i * w, i * w + w)
}

/// The first `n` blocks of width `w` in the flat array `s`.
pub open spec fn blocks<T>(s: Seq<T>, w: nat, n: nat) -> Seq<Seq<T>> {
    Seq::new(n, |i: int| block(s, w, i))
}

/// Block `i` of `n` blocks of width `w` lies inside the first `n * w` entries.
pub proof fn lemma_block_bounds(i: int, n: int, w: int)
    requires
        0 <= i < n,
        0 <= w,
    ensures
        0 <= i * w,
        i * w + w <= n * w,
{
    assert(0 <= i * w) by (nonlinear_arith)
        requires
            0 <= i,
            0 <= w,
    ;
    assert(i * w + w <= n * w) by (nonlinear_arith)
        requires
            i + 1 <= n,
            0 <= w,
    ;
}

/// Appending one block of width `w` to `n` blocks gives `n + 1` blocks.
pub proof fn lemma_blocks_push<T>(s: Seq<T>, b: Seq<T>, w: nat, n: nat)
    requires
        s.len() == n * w,
        b.len() == w,
    ensures
        (s + b).len() == (n + 1) * w,
        blocks(s + b, w, n + 1) =~= blocks(s, w, n).push(b),
{
    assert((n + 1) * w == n * w + w) by (nonlinear_arith);
    let t = s + b;
    assert forall|i: int| 0 <= i < n implies #[trigger] block(t, w, i) =~= block(s, w, i) by {
        lemma_block_bounds(i, n as int, w as int);
    }
    assert(block(t, w, n as int) =~= b);
}

/// The number of blocks of width `w` in an array of `n * w` entries.
pub proof fn lemma_blocks_count(n: nat, w: nat)
    requires
        w > 0,
    ensures
        (n * w) / w == n,
{
    vstd::arithmetic::div_mod::lemma_div_by_multiple(n as int, w as int);
}

} // verus!
