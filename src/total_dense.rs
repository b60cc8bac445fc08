//! A packed collection of chains that all rank every one of the same elements.
use vstd::prelude::*;
use rand::rngs::StdRng;
use crate::chain::ChainRef;
use crate::dense::{
    AddError, block, blocks, DenseOrders, lemma_block_bounds, lemma_blocks_count,
    lemma_blocks_push,
};
use crate::perm::{
    append_indices, copy_indices, drop_element, identity, is_permutation,
    lemma_drop_element_permutation, lemma_identity_permutation, lemma_same_multiset_unique_bounded,
    remove_from_order,
};
use crate::random::shuffle;

verus! {

/// Chains of all `elements` elements, packed into one flat array of `elements`
/// indices per order.
#[derive(Debug, PartialEq, Eq)]
pub struct TotalDense {
    pub(crate) orders: Vec<usize>,
    pub(crate) elements: usize,
}

impl TotalDense {
    /// The number of elements that every order ranks.
    pub open(crate) spec fn elements_spec(&self) -> nat {
        self.elements as nat
    }

    /// The number of stored orders.
    pub open(crate) spec fn len_spec(&self) -> nat {
        if self.elements == 0 {
            0
        } else {
            self.orders@.len() / (self.elements as nat)
        }
    }

    /// The stored orders, each highest ranked first.
    pub open(crate) spec fn orders_view(&self) -> Seq<Seq<usize>> {
        blocks(self.orders@, self.elements as nat, self.len_spec())
    }

    /// The flat array holds whole orders, each a permutation of all elements.
    pub open(crate) spec fn wf(&self) -> bool {
        &&& self.orders@.len() == self.len_spec() * self.elements
        &&& forall|i: int|
            0 <= i < self.len_spec() ==> is_permutation(#[trigger] self.orders_view()[i])
                && self.orders_view()[i].len() == self.elements
    }

    /// Every stored order is a permutation of all the collection's elements.
    pub proof fn lemma_orders_valid(&self)
        requires
            self.wf(),
        ensures
            forall|i: int|
                0 <= i < self.orders_view().len() ==> is_permutation(
                    #[trigger] self.orders_view()[i],
                ) && self.orders_view()[i].len() == self.elements_spec(),
    {
    }

    /// An empty collection of orders of `elements` elements.
    pub fn new(elements: usize) -> (r: Self)
        ensures
            r.wf(),
            r.elements_spec() == elements,
            r.orders_view().len() == 0,
    {
        let r = TotalDense { orders: Vec::new(), elements };
        proof {
            if elements > 0 {
                lemma_blocks_count(0, elements as nat);
            }
        }
        r
    }

    /// The number of elements that every order ranks.
    pub fn elements(&self) -> (r: usize)
        ensures
            r == self.elements_spec(),
    {
        self.elements
    }

    /// The number of stored orders.
    pub fn len(&self) -> (r: usize)
        requires
            self.wf(),
        ensures
            r == self.orders_view().len(),
    {
        if self.elements == 0 {
            0
        } else {
            self.orders.len() / self.elements
        }
    }

    /// Whether no order is stored.
    pub fn is_empty(&self) -> (r: bool)
        requires
            self.wf(),
        ensures
            r == (self.orders_view().len() == 0),
    {
        self.len() == 0
    }

    /// Borrows order `i`, or `None` where there is no such order.
    pub fn try_get<'a>(&'a self, i: usize) -> (r: Option<ChainRef<'a>>)
        requires
            self.wf(),
        ensures
            r is Some <==> i < self.orders_view().len(),
            r matches Some(c) ==> c@ == self.orders_view()[i as int],
    {
        if i < self.len() {
            let e = self.elements;
            let total = self.orders.len();
            proof {
                lemma_block_bounds(i as int, self.len_spec() as int, e as int);
                assert(self.orders_view()[i as int] == block(self.orders@, e as nat, i as int));
            }
            let order = vstd::slice::slice_subrange(self.orders.as_slice(), i * e, i * e + e);
            Some(ChainRef::new(order))
        } else {
            None
        }
    }

    /// Borrows every stored order, in order.
    pub fn iter<'a>(&'a self) -> (r: Vec<ChainRef<'a>>)
        requires
            self.wf(),
        ensures
            r@.len() == self.orders_view().len(),
            forall|i: int|
                0 <= i < r@.len() ==> #[trigger] r@[i]@ == self.orders_view()[i],
    {
        let len = self.len();
        let mut out: Vec<ChainRef<'a>> = Vec::with_capacity(len);
        let mut i: usize = 0;
        while i < len
            invariant
                self.wf(),
                len == self.orders_view().len(),
                i <= len,
                out@.len() == i,
                forall|k: int|
                    0 <= k < i ==> #[trigger] out@[k]@ == self.orders_view()[k],
            decreases len - i,
        {
            out.push(self.get(i));
            i += 1;
        }
        out
    }

    /// Borrows order `i`.
    pub fn get<'a>(&'a self, i: usize) -> (r: ChainRef<'a>)
        requires
            self.wf(),
            i < self.orders_view().len(),
        ensures
            r@ == self.orders_view()[i as int],
    {
        self.try_get(i).unwrap()
    }

    /// Appends `v`. Fails with `AddError::Elements` where `v` ranks another number of
    /// elements than the collection, or the collection has no elements, and with
    /// `AddError::Alloc` where memory for it cannot be reserved; the collection is then
    /// unchanged.
    pub fn push(&mut self, v: ChainRef) -> (r: Result<(), AddError>)
        requires
            old(self).wf(),
        ensures
            final(self).wf(),
            final(self).elements_spec() == old(self).elements_spec(),
            r matches Err(AddError::Elements) <==> (v@.len() != old(self).elements_spec()
                || old(self).elements_spec() == 0),
            r is Ok ==> final(self).orders_view() == old(self).orders_view().push(v@),
            r is Err ==> final(self).orders_view() == old(self).orders_view(),
    {
        proof {
            use_type_invariant(&v);
        }
        let order = v.order();
        if order.len() != self.elements || self.elements == 0 {
            return Err(AddError::Elements);
        }
        match self.orders.try_reserve(order.len()) {
            Ok(()) => {},
            Err(_) => {
                proof {
                    assert(self.orders_view() == old(self).orders_view());
                }
                return Err(AddError::Alloc);
            },
        }
        let ghost n = self.len_spec();
        let ghost e = self.elements as nat;
        append_indices(&mut self.orders, order);
        proof {
            lemma_blocks_push(old(self).orders@, v@, e, n);
            lemma_blocks_count(n + 1, e);
            assert(self.len_spec() == n + 1);
            assert forall|i: int| 0 <= i < self.len_spec() implies is_permutation(
                #[trigger] self.orders_view()[i],
            ) && self.orders_view()[i].len() == self.elements by {
                if i < n {
                    assert(self.orders_view()[i] == old(self).orders_view()[i]);
                }
            }
        }
        Ok(())
    }

    /// Removes element `target` from the universe and from every stored order: the
    /// elements above it move down by one. Fails, leaving the collection unchanged,
    /// where `target` is not an element. Removing the last element leaves an empty
    /// collection of no elements.
    pub fn remove_element(&mut self, target: usize) -> (r: Result<(), &'static str>)
        requires
            old(self).wf(),
        ensures
            final(self).wf(),
            r is Err <==> target >= old(self).elements_spec(),
            r is Err ==> final(self).elements_spec() == old(self).elements_spec()
                && final(self).orders_view() == old(self).orders_view(),
            r is Ok ==> final(self).elements_spec() == old(self).elements_spec() - 1,
            r is Ok ==> final(self).orders_view().len() == if old(self).elements_spec() == 1 {
                0
            } else {
                old(self).orders_view().len()
            },
            r is Ok ==> forall|i: int|
                0 <= i < final(self).orders_view().len() ==> #[trigger] final(self).orders_view()[i]
                    == drop_element(old(self).orders_view()[i], target),
    {
        if self.elements <= target {
            return Err("Element not in collection");
        }
        if self.elements == 1 {
            self.orders.clear();
            self.elements = 0;
            return Ok(());
        }
        let len = self.len();
        let e = self.elements;
        let new_e = e - 1;
        let ghost old_orders = self.orders_view();
        let mut new_orders: Vec<usize> = Vec::new();
        let mut i: usize = 0;
        while i < len
            invariant
                self.wf(),
                self.orders_view() == old_orders,
                len == old_orders.len(),
                e == self.elements,
                new_e == e - 1,
                e >= 2,
                target < e,
                i <= len,
                new_orders@.len() == i * new_e,
                blocks(new_orders@, new_e as nat, i as nat) =~= Seq::new(
                    i as nat,
                    |k: int| drop_element(old_orders[k], target),
                ),
            decreases len - i,
        {
            let o = self.get(i);
            proof {
                use_type_invariant(&o);
                lemma_drop_element_permutation(o@, target);
            }
            let (dropped, _) = remove_from_order(o.order(), target);
            proof {
                lemma_blocks_push(new_orders@, dropped@, new_e as nat, i as nat);
            }
            append_indices(&mut new_orders, dropped.as_slice());
            i += 1;
        }
        self.orders = new_orders;
        self.elements = new_e;
        proof {
            lemma_blocks_count(len as nat, new_e as nat);
            assert(self.len_spec() == len);
            assert forall|k: int| 0 <= k < self.len_spec() implies is_permutation(
                #[trigger] self.orders_view()[k],
            ) && self.orders_view()[k].len() == self.elements by {
                assert(self.orders_view()[k] == drop_element(old_orders[k], target));
                lemma_drop_element_permutation(old_orders[k], target);
            }
        }
        Ok(())
    }

    /// Appends `new_orders` uniformly random permutations. A collection of no
    /// elements stays empty.
    pub fn generate_uniform(&mut self, rng: &mut StdRng, new_orders: usize)
        requires
            old(self).wf(),
        ensures
            final(self).wf(),
            final(self).elements_spec() == old(self).elements_spec(),
            old(self).elements_spec() == 0 ==> final(self).orders_view() == old(self).orders_view(),
            old(self).elements_spec() > 0 ==> final(self).orders_view().len() == old(self).orders_view().len() + new_orders,
            final(self).orders_view().subrange(0, old(self).orders_view().len() as int) == old(self).orders_view(),
    {
        if self.elements == 0 {
            return;
        }
        let e = self.elements;
        let mut v: Vec<usize> = Vec::with_capacity(e);
        let mut j: usize = 0;
        while j < e
            invariant
                j <= e,
                v@ =~= identity(j as nat),
            decreases e - j,
        {
            v.push(j);
            j += 1;
        }
        proof {
            lemma_identity_permutation(e as nat);
        }
        let ghost n0 = self.len_spec();
        let mut k: usize = 0;
        while k < new_orders
            invariant
                self.wf(),
                self.elements == e,
                e > 0,
                k <= new_orders,
                self.len_spec() == n0 + k,
                n0 == old(self).orders_view().len(),
                self.orders_view().subrange(0, n0 as int) == old(self).orders_view(),
                v@.len() == e,
                is_permutation(v@),
            decreases new_orders - k,
        {
            let ghost before = v@;
            shuffle(&mut v, rng);
            proof {
                lemma_same_multiset_unique_bounded(before, v@, e as int);
            }
            let ghost n = self.len_spec();
            let ghost prev = *self;
            append_indices(&mut self.orders, v.as_slice());
            proof {
                lemma_blocks_push(prev.orders@, v@, e as nat, n);
                lemma_blocks_count(n + 1, e as nat);
                assert(self.len_spec() == n + 1);
                assert(self.orders_view() == prev.orders_view().push(v@));
                assert forall|i: int| 0 <= i < self.len_spec() implies is_permutation(
                    #[trigger] self.orders_view()[i],
                ) && self.orders_view()[i].len() == self.elements by {
                    if i < n {
                        assert(self.orders_view()[i] == prev.orders_view()[i]);
                    }
                }
                assert(self.orders_view().subrange(0, n0 as int) =~= prev.orders_view().subrange(
                    0,
                    n0 as int,
                ));
            }
            k += 1;
        }
    }

    /// Once an element has left the universe, every stored order ranks each of the
    /// remaining elements exactly once: its indices are below the new number of
    /// elements and none repeats.
    pub proof fn lemma_remove_element_shape(before: TotalDense, after: TotalDense, target: usize)
        requires
            before.wf(),
            target < before.elements_spec(),
            after.elements_spec() == before.elements_spec() - 1,
            after.orders_view().len() == if before.elements_spec() == 1 {
                0
            } else {
                before.orders_view().len()
            },
            forall|i: int|
                0 <= i < after.orders_view().len() ==> #[trigger] after.orders_view()[i]
                    == drop_element(before.orders_view()[i], target),
        ensures
            forall|i: int|
                0 <= i < after.orders_view().len() ==> {
                    &&& #[trigger] after.orders_view()[i].len() == after.elements_spec()
                    &&& crate::perm::unique_bounded(
                        after.elements_spec() as int,
                        after.orders_view()[i],
                    )
                },
    {
        assert forall|i: int| 0 <= i < after.orders_view().len() implies {
            &&& #[trigger] after.orders_view()[i].len() == after.elements_spec()
            &&& crate::perm::unique_bounded(after.elements_spec() as int, after.orders_view()[i])
        } by {
            assert(before.orders_view()[i].len() == before.elements);
            lemma_drop_element_permutation(before.orders_view()[i], target);
        }
    }
}

impl Clone for TotalDense {
    fn clone(&self) -> (r: Self)
        ensures
            r.elements_spec() == self.elements_spec(),
            r.orders_view() == self.orders_view(),
            self.wf() ==> r.wf(),
    {
        TotalDense { orders: copy_indices(&self.orders), elements: self.elements }
    }
}

impl<'a> DenseOrders<'a> for TotalDense {
    type Order = ChainRef<'a>;

    open spec fn dense_wf(&self) -> bool {
        self.wf()
    }

    open spec fn dense_elements(&self) -> nat {
        self.elements_spec()
    }

    open spec fn dense_len(&self) -> nat {
        self.orders_view().len()
    }

    open spec fn order_elements(o: &ChainRef<'a>) -> nat {
        o@.len()
    }

    fn elements(&self) -> (r: usize) {
        TotalDense::elements(self)
    }

    fn len(&self) -> (r: usize) {
        TotalDense::len(self)
    }

    fn push(&mut self, v: ChainRef<'a>) -> (r: Result<(), AddError>) {
        TotalDense::push(self, v)
    }

    fn try_get(&'a self, i: usize) -> (r: Option<ChainRef<'a>>) {
        TotalDense::try_get(self, i)
    }

    fn remove_element(&mut self, target: usize) -> (r: Result<(), &'static str>) {
        TotalDense::remove_element(self, target)
    }

    fn generate_uniform(&mut self, rng: &mut StdRng, new_orders: usize) {
        TotalDense::generate_uniform(self, rng, new_orders)
    }
}

} // verus!
