//! A packed collection of chains over the same elements, each ranking a subset of them.
use vstd::prelude::*;
use rand::rngs::StdRng;
use crate::chain::ChainIRef;
use crate::dense::{AddError, DenseOrders, lemma_block_bounds};
use crate::perm::{
    append_indices, copy_indices, drop_from_chain, identity, lemma_drop_from_chain,
    lemma_identity_permutation, lemma_same_multiset_unique_bounded, remove_from_chain,
    unique_bounded,
};
use crate::random::{random_below, shuffle};
use crate::total_dense::TotalDense;

verus! {

/// Chains over `elements` elements packed into one flat array of indices, with the
/// end of each chain in `order_end`.
#[derive(Debug)]
pub struct ChainIDense {
    pub(crate) orders: Vec<usize>,
    pub(crate) order_end: Vec<usize>,
    pub(crate) elements: usize,
}

impl ChainIDense {
    /// The number of elements that every chain ranks a subset of.
    pub open(crate) spec fn elements_spec(&self) -> nat {
        self.elements as nat
    }

    /// Where chain `i` starts in the flat array.
    pub open(crate) spec fn start_spec(&self, i: int) -> int {
        if i == 0 {
            0
        } else {
            self.order_end@[i - 1] as int
        }
    }

    /// The stored chains, each highest ranked first.
    pub open(crate) spec fn orders_view(&self) -> Seq<Seq<usize>> {
        Seq::new(
            self.order_end@.len(),
            |i: int| self.orders@.subrange(self.start_spec(i), self.order_end@[i] as int),
        )
    }

    /// The ends do not decrease, the last is the end of the flat array, and every
    /// chain holds distinct elements.
    pub open(crate) spec fn wf(&self) -> bool {
        &&& forall|i: int|
            0 <= i < self.order_end@.len() ==> self.start_spec(i) <= #[trigger] self.order_end@[i]
        &&& self.order_end@.len() == 0 ==> self.orders@.len() == 0
        &&& self.order_end@.len() > 0 ==> self.order_end@.last() == self.orders@.len()
        &&& forall|i: int|
            0 <= i < self.order_end@.len() ==> unique_bounded(
                self.elements as int,
                #[trigger] self.orders_view()[i],
            )
    }

    /// Every stored chain holds distinct elements of the collection.
    pub proof fn lemma_orders_valid(&self)
        requires
            self.wf(),
        ensures
            forall|i: int|
                0 <= i < self.orders_view().len() ==> unique_bounded(
                    self.elements_spec() as int,
                    #[trigger] self.orders_view()[i],
                ),
    {
    }

    /// An empty collection of chains over `elements` elements.
    pub fn new(elements: usize) -> (r: Self)
        ensures
            r.wf(),
            r.elements_spec() == elements,
            r.orders_view().len() == 0,
    {
        ChainIDense { orders: Vec::new(), order_end: Vec::new(), elements }
    }

    /// The number of elements that every chain ranks a subset of.
    pub fn elements(&self) -> (r: usize)
        ensures
            r == self.elements_spec(),
    {
        self.elements
    }

    /// The number of stored chains.
    pub fn len(&self) -> (r: usize)
        ensures
            r == self.orders_view().len(),
    {
        self.order_end.len()
    }

    /// Whether no chain is stored.
    pub fn is_empty(&self) -> (r: bool)
        ensures
            r == (self.orders_view().len() == 0),
    {
        self.order_end.len() == 0
    }

    /// The end of the last chain in the flat array.
    fn end(&self) -> (r: usize)
        requires
            self.wf(),
        ensures
            r == self.orders@.len(),
    {
        if self.order_end.len() == 0 {
            0
        } else {
            self.order_end[self.order_end.len() - 1]
        }
    }

    /// Borrows chain `i`, or `None` where there is no such chain.
    pub fn try_get<'a>(&'a self, i: usize) -> (r: Option<ChainIRef<'a>>)
        requires
            self.wf(),
        ensures
            r is Some <==> i < self.orders_view().len(),
            r matches Some(c) ==> c@ == self.orders_view()[i as int] && c.elements_spec()
                == self.elements_spec(),
    {
        if i < self.order_end.len() {
            let start: usize = if i == 0 {
                0
            } else {
                self.order_end[i - 1]
            };
            let end = self.order_end[i];
            proof {
                self.lemma_end_bound(i as int);
                assert(unique_bounded(self.elements as int, self.orders_view()[i as int]));
            }
            let order = vstd::slice::slice_subrange(self.orders.as_slice(), start, end);
            Some(ChainIRef::new(self.elements, order))
        } else {
            None
        }
    }

    /// Every end lies inside the flat array.
    proof fn lemma_end_bound(&self, i: int)
        requires
            self.wf(),
            0 <= i < self.order_end@.len(),
        ensures
            self.order_end@[i] <= self.orders@.len(),
        decreases self.order_end@.len() - i,
    {
        if i + 1 < self.order_end@.len() {
            self.lemma_end_bound(i + 1);
            assert(self.start_spec(i + 1) <= self.order_end@[i + 1]);
        }
    }

    /// Borrows every stored order, in order.
    pub fn iter<'a>(&'a self) -> (r: Vec<ChainIRef<'a>>)
        requires
            self.wf(),
        ensures
            r@.len() == self.orders_view().len(),
            forall|i: int|
                0 <= i < r@.len() ==> #[trigger] r@[i]@ == self.orders_view()[i] && r@[i].elements_spec() == self.elements_spec(),
    {
        let len = self.len();
        let mut out: Vec<ChainIRef<'a>> = Vec::with_capacity(len);
        let mut i: usize = 0;
        while i < len
            invariant
                self.wf(),
                len == self.orders_view().len(),
                i <= len,
                out@.len() == i,
                forall|k: int|
                    0 <= k < i ==> #[trigger] out@[k]@ == self.orders_view()[k] && out@[k].elements_spec() == self.elements_spec(),
            decreases len - i,
        {
            out.push(self.get(i));
            i += 1;
        }
        out
    }

    /// Borrows chain `i`.
    pub fn get<'a>(&'a self, i: usize) -> (r: ChainIRef<'a>)
        requires
            self.wf(),
            i < self.orders_view().len(),
        ensures
            r@ == self.orders_view()[i as int],
            r.elements_spec() == self.elements_spec(),
    {
        self.try_get(i).unwrap()
    }

    /// Appends the indices of `v` as one more chain.
    fn append(&mut self, v: &[usize])
        requires
            old(self).wf(),
            unique_bounded(old(self).elements as int, v@),
        ensures
            final(self).wf(),
            final(self).elements == old(self).elements,
            final(self).orders_view() == old(self).orders_view().push(v@),
    {
        let ghost prev = *self;
        append_indices(&mut self.orders, v);
        let end = self.orders.len();
        self.order_end.push(end);
        proof {
            let n = prev.order_end@.len() as int;
            assert forall|i: int| 0 <= i < n implies #[trigger] self.orders_view()[i]
                == prev.orders_view()[i] by {
                prev.lemma_end_bound(i);
                assert(self.orders_view()[i] =~= prev.orders_view()[i]);
            }
            assert(self.orders_view()[n] =~= v@);
            assert(self.orders_view() =~= prev.orders_view().push(v@));
            assert forall|i: int| 0 <= i < self.order_end@.len() implies self.start_spec(i)
                <= #[trigger] self.order_end@[i] by {
                if i < n {
                    assert(prev.start_spec(i) <= prev.order_end@[i]);
                }
            }
            assert forall|i: int| 0 <= i < self.order_end@.len() implies unique_bounded(
                self.elements as int,
                #[trigger] self.orders_view()[i],
            ) by {
                if i < n {
                    assert(unique_bounded(prev.elements as int, prev.orders_view()[i]));
                }
            }
        }
    }

    /// Appends `v`. Fails with `AddError::Elements` where `v` is a chain over another
    /// number of elements, and with `AddError::Alloc` where memory for it cannot be
    /// reserved; the collection is then unchanged.
    pub fn push(&mut self, v: ChainIRef) -> (r: Result<(), AddError>)
        requires
            old(self).wf(),
        ensures
            final(self).wf(),
            final(self).elements_spec() == old(self).elements_spec(),
            r matches Err(AddError::Elements) <==> v.elements_spec()
                != old(self).elements_spec(),
            r is Ok ==> final(self).orders_view() == old(self).orders_view().push(v@),
            r is Err ==> final(self).orders_view() == old(self).orders_view(),
    {
        proof {
            use_type_invariant(&v);
        }
        if v.elements() != self.elements {
            return Err(AddError::Elements);
        }
        let order = v.order();
        match self.orders.try_reserve(order.len()) {
            Ok(()) => {},
            Err(_) => {
                proof {
                    assert(self.orders_view() =~= old(self).orders_view());
                }
                return Err(AddError::Alloc);
            },
        }
        proof {
            assert(self.orders_view() =~= old(self).orders_view());
        }
        self.append(order);
        Ok(())
    }

    /// Appends `new_orders` random chains: each of a uniformly random length from 1 to
    /// `elements`, holding a uniformly random arrangement of distinct elements. A
    /// collection of no elements stays empty.
    pub fn generate_uniform(&mut self, rng: &mut StdRng, new_orders: usize)
        requires
            old(self).wf(),
        ensures
            final(self).wf(),
            final(self).elements_spec() == old(self).elements_spec(),
            old(self).elements_spec() == 0 ==> final(self).orders_view() == old(self).orders_view(),
            old(self).elements_spec() > 0 ==> final(self).orders_view().len() == old(self).orders_view().len() + new_orders,
            final(self).orders_view().subrange(0, old(self).orders_view().len() as int) == old(self).orders_view(),
            forall|i: int|
                old(self).orders_view().len() <= i < final(self).orders_view().len() ==> 1
                    <= #[trigger] final(self).orders_view()[i].len() <= final(self).elements_spec(),
    {
        if self.elements == 0 {
            return;
        }
        let e = self.elements;
        let mut v: Vec<usize> = Vec::with_capacity(e);
        let mut j: usize = 0;
        while j < e
            invariant
                j <= e,
                v@ =~= identity(j as nat),
            decreases e - j,
        {
            v.push(j);
            j += 1;
        }
        proof {
            lemma_identity_permutation(e as nat);
        }
        let ghost n0 = old(self).orders_view().len();
        let mut k: usize = 0;
        while k < new_orders
            invariant
                self.wf(),
                self.elements == e,
                e > 0,
                k <= new_orders,
                self.orders_view().len() == n0 + k,
                n0 == old(self).orders_view().len(),
                self.orders_view().subrange(0, n0 as int) == old(self).orders_view(),
                forall|i: int|
                    n0 <= i < self.orders_view().len() ==> 1 <= #[trigger] self.orders_view()[i].len()
                        <= e,
                v@.len() == e,
                unique_bounded(e as int, v@),
            decreases new_orders - k,
        {
            let len = random_below(rng, e) + 1;
            let ghost before = v@;
            shuffle(&mut v, rng);
            proof {
                lemma_same_multiset_unique_bounded(before, v@, e as int);
            }
            let chosen = vstd::slice::slice_subrange(v.as_slice(), 0, len);
            let ghost prev = self.orders_view();
            proof {
                assert(unique_bounded(e as int, chosen@));
            }
            self.append(chosen);
            proof {
                assert(self.orders_view().subrange(0, n0 as int) =~= prev.subrange(0, n0 as int));
            }
            k += 1;
        }
    }

    /// Removes element `target` from the universe and from every stored chain: the
    /// elements above it move down by one. Fails, leaving the collection unchanged,
    /// where `target` is not an element. Removing the last element leaves an empty
    /// collection of no elements.
    pub fn remove_element(&mut self, target: usize) -> (r: Result<(), &'static str>)
        requires
            old(self).wf(),
        ensures
            final(self).wf(),
            r is Err <==> target >= old(self).elements_spec(),
            r is Err ==> final(self).elements_spec() == old(self).elements_spec()
                && final(self).orders_view() == old(self).orders_view(),
            r is Ok ==> final(self).elements_spec() == old(self).elements_spec() - 1,
            r is Ok ==> final(self).orders_view().len() == if old(self).elements_spec() == 1 {
                0
            } else {
                old(self).orders_view().len()
            },
            r is Ok ==> forall|i: int|
                0 <= i < final(self).orders_view().len() ==> #[trigger] final(self).orders_view()[i]
                    == drop_from_chain(old(self).orders_view()[i], target),
    {
        if self.elements <= target {
            return Err("Element not in collection");
        }
        if self.elements == 1 {
            self.orders.clear();
            self.order_end.clear();
            self.elements = 0;
            return Ok(());
        }
        let len = self.order_end.len();
        let ghost old_orders = self.orders_view();
        let mut out = ChainIDense::new(self.elements - 1);
        let mut i: usize = 0;
        while i < len
            invariant
                self.wf(),
                self.orders_view() == old_orders,
                len == old_orders.len(),
                target < self.elements,
                self.elements >= 2,
                out.wf(),
                out.elements == self.elements - 1,
                i <= len,
                out.orders_view() =~= Seq::new(
                    i as nat,
                    |k: int| drop_from_chain(old_orders[k], target),
                ),
            decreases len - i,
        {
            let o = self.get(i);
            proof {
                use_type_invariant(&o);
                lemma_drop_from_chain(o@, target, self.elements as int);
            }
            let dropped = remove_from_chain(o.order(), target);
            let ghost prev = out.orders_view();
            out.append(dropped.as_slice());
            proof {
                assert(out.orders_view() =~= prev.push(dropped@));
            }
            i += 1;
        }
        *self = out;
        Ok(())
    }

    /// The same chains seen as chains that happen to rank every element.
    pub fn from_total(value: TotalDense) -> (r: ChainIDense)
        requires
            value.wf(),
        ensures
            r.wf(),
            r.elements_spec() == value.elements_spec(),
            r.orders_view() == value.orders_view(),
    {
        let len = value.len();
        let e = value.elements;
        let mut order_end: Vec<usize> = Vec::with_capacity(len);
        let total = value.orders.len();
        let mut i: usize = 0;
        while i < len
            invariant
                value.wf(),
                len == value.len_spec(),
                e == value.elements,
                total == value.orders@.len(),
                i <= len,
                order_end@.len() == i,
                forall|k: int| 0 <= k < i ==> #[trigger] order_end@[k] == (k + 1) * e,
            decreases len - i,
        {
            proof {
                lemma_block_bounds(i as int, len as int, e as int);
                assert((i + 1) * e == i * e + e) by (nonlinear_arith);
            }
            order_end.push((i + 1) * e);
            i += 1;
        }
        let r = ChainIDense { orders: value.orders, order_end, elements: e };
        proof {
            assert forall|k: int| 0 <= k < len implies #[trigger] r.orders_view()[k]
                == value.orders_view()[k] && r.start_spec(k) <= r.order_end@[k] by {
                lemma_block_bounds(k, len as int, e as int);
                if k > 0 {
                    assert(((k - 1) + 1) * e == k * e);
                }
                assert((k + 1) * e == k * e + e) by (nonlinear_arith);
                assert(r.start_spec(k) == k * e);
                assert(r.orders_view()[k] =~= value.orders_view()[k]);
            }
            assert(r.orders_view() =~= value.orders_view());
            assert forall|k: int| 0 <= k < r.order_end@.len() implies r.start_spec(k)
                <= #[trigger] r.order_end@[k] by {
                assert(r.orders_view()[k] == value.orders_view()[k]);
            }
            if len > 0 {
                assert(r.order_end@.last() == len * e);
                assert(r.order_end@.last() == r.orders@.len());
            } else {
                assert(value.orders@.len() == value.len_spec() * value.elements);
                assert(0 * (e as int) == 0) by (nonlinear_arith);
                assert(r.orders@.len() == 0);
            }
            assert forall|k: int| 0 <= k < r.order_end@.len() implies unique_bounded(
                r.elements as int,
                #[trigger] r.orders_view()[k],
            ) by {
                assert(r.orders_view()[k] == value.orders_view()[k]);
                value.lemma_orders_valid();
            }
        }
        r
    }

    /// Once an element has left the universe, every stored chain holds distinct
    /// elements of the smaller universe.
    pub proof fn lemma_remove_element_shape(before: ChainIDense, after: ChainIDense, target: usize)
        requires
            before.wf(),
            target < before.elements_spec(),
            after.elements_spec() == before.elements_spec() - 1,
            after.orders_view().len() <= before.orders_view().len(),
            forall|i: int|
                0 <= i < after.orders_view().len() ==> #[trigger] after.orders_view()[i]
                    == drop_from_chain(before.orders_view()[i], target),
        ensures
            forall|i: int|
                0 <= i < after.orders_view().len() ==> unique_bounded(
                    after.elements_spec() as int,
                    #[trigger] after.orders_view()[i],
                ),
    {
        assert forall|i: int| 0 <= i < after.orders_view().len() implies unique_bounded(
            after.elements_spec() as int,
            #[trigger] after.orders_view()[i],
        ) by {
            lemma_drop_from_chain(before.orders_view()[i], target, before.elements as int);
        }
    }
}

impl Clone for ChainIDense {
    fn clone(&self) -> (r: Self)
        ensures
            r.elements_spec() == self.elements_spec(),
            r.orders_view() == self.orders_view(),
            self.wf() ==> r.wf(),
    {
        let r = ChainIDense {
            orders: copy_indices(&self.orders),
            order_end: copy_indices(&self.order_end),
            elements: self.elements,
        };
        proof {
            assert forall|i: int| 0 <= i < r.order_end@.len() implies #[trigger] r.orders_view()[i]
                == self.orders_view()[i] && r.start_spec(i) == self.start_spec(i) by {}
            assert(r.orders_view() =~= self.orders_view());
        }
        r
    }
}

impl<'a> DenseOrders<'a> for ChainIDense {
    type Order = ChainIRef<'a>;

    open spec fn dense_wf(&self) -> bool {
        self.wf()
    }

    open spec fn dense_elements(&self) -> nat {
        self.elements_spec()
    }

    open spec fn dense_len(&self) -> nat {
        self.orders_view().len()
    }

    open spec fn order_elements(o: &ChainIRef<'a>) -> nat {
        o.elements_spec()
    }

    fn elements(&self) -> (r: usize) {
        ChainIDense::elements(self)
    }

    fn len(&self) -> (r: usize) {
        ChainIDense::len(self)
    }

    fn push(&mut self, v: ChainIRef<'a>) -> (r: Result<(), AddError>) {
        ChainIDense::push(self, v)
    }

    fn try_get(&'a self, i: usize) -> (r: Option<ChainIRef<'a>>) {
        ChainIDense::try_get(self, i)
    }

    fn remove_element(&mut self, target: usize) -> (r: Result<(), &'static str>) {
        ChainIDense::remove_element(self, target)
    }

    fn generate_uniform(&mut self, rng: &mut StdRng, new_orders: usize) {
        ChainIDense::generate_uniform(self, rng, new_orders)
    }
}

} // verus!
