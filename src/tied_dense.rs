//! A packed collection of tied orders that all rank the same number of elements.
use vstd::prelude::*;
use rand::rngs::StdRng;
use crate::dense::{
    AddError, block, blocks, DenseOrders, lemma_block_bounds, lemma_blocks_count,
    lemma_blocks_push,
};
use crate::perm::{
    append_flags, append_indices, copy_flags, copy_indices, drop_element, identity,
    lemma_drop_element_permutation, lemma_identity_permutation, lemma_same_multiset_unique_bounded,
    position, remove_from_order,
};
use crate::random::{random_bool, shuffle};
use crate::specific_dense::SpecificDense;
use crate::tied::{is_winner, merge_ties, merge_ties_at, tie_len, TiedRef, valid_tied};
use crate::total_dense::TotalDense;

verus! {

/// Tied orders of `elements` elements, packed into two flat arrays: `elements`
/// indices and `elements - 1` tie flags per order.
#[derive(Debug)]
pub struct TiedDense {
    pub(crate) orders: Vec<usize>,
    pub(crate) ties: Vec<bool>,
    pub(crate) elements: usize,
}

impl TiedDense {
    /// The number of elements that every order ranks.
    pub open(crate) spec fn elements_spec(&self) -> nat {
        self.elements as nat
    }

    /// The number of stored orders.
    pub open(crate) spec fn len_spec(&self) -> nat {
        if self.elements == 0 {
            0
        } else {
            self.orders@.len() / (self.elements as nat)
        }
    }

    /// The stored orders, each highest ranked first.
    pub open(crate) spec fn orders_view(&self) -> Seq<Seq<usize>> {
        blocks(self.orders@, self.elements as nat, self.len_spec())
    }

    /// The tie flags of each stored order.
    pub open(crate) spec fn ties_view(&self) -> Seq<Seq<bool>> {
        blocks(self.ties@, tie_len(self.elements as nat), self.len_spec())
    }

    /// The flat arrays hold whole orders, each a valid tied order of all elements.
    pub open(crate) spec fn wf(&self) -> bool {
        &&& self.orders@.len() == self.len_spec() * self.elements
        &&& self.ties@.len() == self.len_spec() * tie_len(self.elements as nat)
        &&& forall|i: int|
            0 <= i < self.len_spec() ==> valid_tied(
                #[trigger] self.orders_view()[i],
                self.ties_view()[i],
            ) && self.orders_view()[i].len() == self.elements
    }

    /// Every stored order is a tied order of all the collection's elements.
    pub proof fn lemma_orders_valid(&self)
        requires
            self.wf(),
        ensures
            self.orders_view().len() == self.ties_view().len(),
            forall|i: int|
                0 <= i < self.orders_view().len() ==> valid_tied(
                    #[trigger] self.orders_view()[i],
                    self.ties_view()[i],
                ) && self.orders_view()[i].len() == self.elements_spec(),
    {
    }

    /// An empty collection of orders of `elements` elements.
    pub fn new(elements: usize) -> (r: Self)
        ensures
            r.wf(),
            r.elements_spec() == elements,
            r.orders_view().len() == 0,
            r.ties_view().len() == 0,
    {
        let r = TiedDense { orders: Vec::new(), ties: Vec::new(), elements };
        proof {
            if elements > 0 {
                lemma_blocks_count(0, elements as nat);
            }
        }
        r
    }

    /// The number of elements that every order ranks.
    pub fn elements(&self) -> (r: usize)
        ensures
            r == self.elements_spec(),
    {
        self.elements
    }

    /// The number of stored orders.
    pub fn len(&self) -> (r: usize)
        requires
            self.wf(),
        ensures
            r == self.orders_view().len(),
    {
        if self.elements == 0 {
            0
        } else {
            self.orders.len() / self.elements
        }
    }

    /// Whether no order is stored.
    pub fn is_empty(&self) -> (r: bool)
        requires
            self.wf(),
        ensures
            r == (self.orders_view().len() == 0),
    {
        self.len() == 0
    }

    /// Borrows order `i`, or `None` where there is no such order.
    pub fn try_get<'a>(&'a self, i: usize) -> (r: Option<TiedRef<'a>>)
        requires
            self.wf(),
        ensures
            r is Some <==> i < self.orders_view().len(),
            r matches Some(t) ==> t@ == self.orders_view()[i as int] && t.ties()
                == self.ties_view()[i as int],
    {
        if i < self.len() {
            let e = self.elements;
            let w = e - 1;
            let total_orders = self.orders.len();
            let total_ties = self.ties.len();
            proof {
                assert(tie_len(e as nat) == w);
                lemma_block_bounds(i as int, self.len_spec() as int, e as int);
                lemma_block_bounds(i as int, self.len_spec() as int, w as int);
                assert(self.orders_view()[i as int] == block(self.orders@, e as nat, i as int));
                assert(valid_tied(self.orders_view()[i as int], self.ties_view()[i as int]));
            }
            let order = vstd::slice::slice_subrange(self.orders.as_slice(), i * e, i * e + e);
            let tied = vstd::slice::slice_subrange(self.ties.as_slice(), i * w, i * w + w);
            Some(TiedRef::new(order, tied))
        } else {
            None
        }
    }

    /// Borrows every stored order, in order.
    pub fn iter<'a>(&'a self) -> (r: Vec<TiedRef<'a>>)
        requires
            self.wf(),
        ensures
            r@.len() == self.orders_view().len(),
            forall|i: int|
                0 <= i < r@.len() ==> #[trigger] r@[i]@ == self.orders_view()[i] && r@[i].ties() == self.ties_view()[i],
    {
        let len = self.len();
        let mut out: Vec<TiedRef<'a>> = Vec::with_capacity(len);
        let mut i: usize = 0;
        while i < len
            invariant
                self.wf(),
                len == self.orders_view().len(),
                i <= len,
                out@.len() == i,
                forall|k: int|
                    0 <= k < i ==> #[trigger] out@[k]@ == self.orders_view()[k] && out@[k].ties() == self.ties_view()[k],
            decreases len - i,
        {
            out.push(self.get(i));
            i += 1;
        }
        out
    }

    /// Borrows order `i`.
    pub fn get<'a>(&'a self, i: usize) -> (r: TiedRef<'a>)
        requires
            self.wf(),
            i < self.orders_view().len(),
        ensures
            r@ == self.orders_view()[i as int],
            r.ties() == self.ties_view()[i as int],
    {
        self.try_get(i).unwrap()
    }

    /// Appends `v`. Fails with `AddError::Elements` where `v` ranks another number of
    /// elements than the collection, and with `AddError::Alloc` where memory for it
    /// cannot be reserved; the collection is then unchanged. A collection of no
    /// elements takes the empty order and stays empty.
    pub fn push(&mut self, v: TiedRef) -> (r: Result<(), AddError>)
        requires
            old(self).wf(),
        ensures
            final(self).wf(),
            final(self).elements_spec() == old(self).elements_spec(),
            r matches Err(AddError::Elements) <==> v@.len() != old(self).elements_spec(),
            r is Ok && old(self).elements_spec() > 0 ==> final(self).orders_view() == old(self).orders_view().push(v@) && final(self).ties_view() == old(self).ties_view().push(
                v.ties(),
            ),
            !(r is Ok && old(self).elements_spec() > 0) ==> final(self).orders_view() == old(self).orders_view() && final(self).ties_view() == old(self).ties_view(),
    {
        proof {
            use_type_invariant(&v);
        }
        let order = v.order();
        let tie = v.tied();
        if order.len() != self.elements {
            return Err(AddError::Elements);
        }
        if self.elements == 0 {
            return Ok(());
        }
        match self.orders.try_reserve(order.len()) {
            Ok(()) => {},
            Err(_) => {
                proof {
                    assert(self.orders_view() == old(self).orders_view());
                    assert(self.ties_view() == old(self).ties_view());
                }
                return Err(AddError::Alloc);
            },
        }
        match self.ties.try_reserve(tie.len()) {
            Ok(()) => {},
            Err(_) => {
                proof {
                    assert(self.orders_view() == old(self).orders_view());
                    assert(self.ties_view() == old(self).ties_view());
                }
                return Err(AddError::Alloc);
            },
        }
        let ghost n = self.len_spec();
        let ghost e = self.elements as nat;
        append_indices(&mut self.orders, order);
        append_flags(&mut self.ties, tie);
        proof {
            lemma_blocks_push(old(self).orders@, v@, e, n);
            lemma_blocks_push(old(self).ties@, v.ties(), tie_len(e), n);
            lemma_blocks_count(n + 1, e);
            assert(self.len_spec() == n + 1);
            assert forall|i: int| 0 <= i < self.len_spec() implies valid_tied(
                #[trigger] self.orders_view()[i],
                self.ties_view()[i],
            ) && self.orders_view()[i].len() == self.elements by {
                if i < n {
                    assert(self.orders_view()[i] == old(self).orders_view()[i]);
                    assert(self.ties_view()[i] == old(self).ties_view()[i]);
                }
            }
        }
        Ok(())
    }

    /// Removes element `target` from the universe and from every stored order: the
    /// elements above it move down by one and the tie flags beside it merge. Fails,
    /// leaving the collection unchanged, where `target` is not an element. Removing the
    /// last element leaves an empty collection of no elements.
    pub fn remove_element(&mut self, target: usize) -> (r: Result<(), &'static str>)
        requires
            old(self).wf(),
        ensures
            final(self).wf(),
            r is Err <==> target >= old(self).elements_spec(),
            r is Err ==> final(self).elements_spec() == old(self).elements_spec()
                && final(self).orders_view() == old(self).orders_view() && final(self).ties_view()
                == old(self).ties_view(),
            r is Ok ==> final(self).elements_spec() == old(self).elements_spec() - 1,
            r is Ok ==> final(self).orders_view().len() == if old(self).elements_spec() == 1 {
                0
            } else {
                old(self).orders_view().len()
            },
            r is Ok ==> forall|i: int|
                0 <= i < final(self).orders_view().len() ==> #[trigger] final(self).orders_view()[i]
                    == drop_element(old(self).orders_view()[i], target) && final(self).ties_view()[i] == merge_ties(
                    old(self).ties_view()[i],
                    position(old(self).orders_view()[i], target),
                ),
    {
        if self.elements <= target {
            return Err("Element not in collection");
        }
        if self.elements == 1 {
            self.orders.clear();
            self.ties.clear();
            self.elements = 0;
            return Ok(());
        }
        let len = self.len();
        let e = self.elements;
        let new_e = e - 1;
        let ghost old_orders = self.orders_view();
        let ghost old_ties = self.ties_view();
        let mut new_orders: Vec<usize> = Vec::new();
        let mut new_ties: Vec<bool> = Vec::new();
        let mut i: usize = 0;
        while i < len
            invariant
                self.wf(),
                self.orders_view() == old_orders,
                self.ties_view() == old_ties,
                len == old_orders.len(),
                e == self.elements,
                new_e == e - 1,
                e >= 2,
                target < e,
                i <= len,
                new_orders@.len() == i * new_e,
                new_ties@.len() == i * (new_e - 1),
                blocks(new_orders@, new_e as nat, i as nat) =~= Seq::new(
                    i as nat,
                    |k: int| drop_element(old_orders[k], target),
                ),
                blocks(new_ties@, (new_e - 1) as nat, i as nat) =~= Seq::new(
                    i as nat,
                    |k: int| merge_ties(old_ties[k], position(old_orders[k], target)),
                ),
            decreases len - i,
        {
            let o = self.get(i);
            proof {
                use_type_invariant(&o);
                assert(old_orders[i as int].len() == e);
                lemma_drop_element_permutation(o@, target);
            }
            let (dropped, p) = remove_from_order(o.order(), target);
            let merged = merge_ties_at(o.tied(), p);
            proof {
                assert(merged@.len() == new_e - 1);
                lemma_blocks_push(new_orders@, dropped@, new_e as nat, i as nat);
                lemma_blocks_push(new_ties@, merged@, (new_e - 1) as nat, i as nat);
            }
            append_indices(&mut new_orders, dropped.as_slice());
            append_flags(&mut new_ties, merged.as_slice());
            i += 1;
        }
        self.orders = new_orders;
        self.ties = new_ties;
        self.elements = new_e;
        proof {
            lemma_blocks_count(len as nat, new_e as nat);
            assert(self.len_spec() == len);
            assert(tie_len(new_e as nat) == new_e - 1);
            assert forall|k: int| 0 <= k < self.len_spec() implies valid_tied(
                #[trigger] self.orders_view()[k],
                self.ties_view()[k],
            ) && self.orders_view()[k].len() == self.elements by {
                assert(self.orders_view()[k] == drop_element(old_orders[k], target));
                lemma_drop_element_permutation(old_orders[k], target);
            }
        }
        Ok(())
    }

    /// Appends `new_orders` random orders: each a uniformly random permutation with a
    /// fair coin for each tie flag. A collection of no elements stays empty.
    pub fn generate_uniform(&mut self, rng: &mut StdRng, new_orders: usize)
        requires
            old(self).wf(),
        ensures
            final(self).wf(),
            final(self).elements_spec() == old(self).elements_spec(),
            old(self).elements_spec() == 0 ==> final(self).orders_view() == old(self).orders_view(),
            old(self).elements_spec() > 0 ==> final(self).orders_view().len() == old(self).orders_view().len() + new_orders,
            final(self).orders_view().subrange(0, old(self).orders_view().len() as int) == old(self).orders_view(),
            final(self).ties_view().subrange(0, old(self).ties_view().len() as int) == old(self).ties_view(),
    {
        if self.elements == 0 {
            return;
        }
        let e = self.elements;
        let mut v: Vec<usize> = Vec::with_capacity(e);
        let mut j: usize = 0;
        while j < e
            invariant
                j <= e,
                v@ =~= identity(j as nat),
            decreases e - j,
        {
            v.push(j);
            j += 1;
        }
        proof {
            lemma_identity_permutation(e as nat);
        }
        let ghost n0 = self.len_spec();
        let mut k: usize = 0;
        while k < new_orders
            invariant
                self.wf(),
                self.elements == e,
                e > 0,
                k <= new_orders,
                self.len_spec() == n0 + k,
                n0 == old(self).orders_view().len(),
                self.orders_view().subrange(0, n0 as int) == old(self).orders_view(),
                self.ties_view().subrange(0, n0 as int) == old(self).ties_view(),
                v@.len() == e,
                crate::perm::is_permutation(v@),
            decreases new_orders - k,
        {
            let ghost before = v@;
            shuffle(&mut v, rng);
            proof {
                lemma_same_multiset_unique_bounded(before, v@, e as int);
            }
            let mut tied: Vec<bool> = Vec::new();
            let mut t: usize = 0;
            while t < e - 1
                invariant
                    t <= e - 1,
                    tied@.len() == t,
                decreases e - 1 - t,
            {
                tied.push(random_bool(rng));
                t += 1;
            }
            let ghost n = self.len_spec();
            let ghost prev = *self;
            append_indices(&mut self.orders, v.as_slice());
            append_flags(&mut self.ties, tied.as_slice());
            proof {
                lemma_blocks_push(prev.orders@, v@, e as nat, n);
                lemma_blocks_push(prev.ties@, tied@, tie_len(e as nat), n);
                lemma_blocks_count(n + 1, e as nat);
                assert(self.len_spec() == n + 1);
                assert(self.orders_view() == prev.orders_view().push(v@));
                assert(self.ties_view() == prev.ties_view().push(tied@));
                assert forall|i: int| 0 <= i < self.len_spec() implies valid_tied(
                    #[trigger] self.orders_view()[i],
                    self.ties_view()[i],
                ) && self.orders_view()[i].len() == self.elements by {
                    if i < n {
                        assert(self.orders_view()[i] == prev.orders_view()[i]);
                        assert(self.ties_view()[i] == prev.ties_view()[i]);
                    }
                }
                assert(self.orders_view().subrange(0, n0 as int) =~= prev.orders_view().subrange(
                    0,
                    n0 as int,
                ));
                assert(self.ties_view().subrange(0, n0 as int) =~= prev.ties_view().subrange(
                    0,
                    n0 as int,
                ));
            }
            k += 1;
        }
        proof {
            assert(self.orders_view().len() == n0 + new_orders);
        }
    }

    /// The same chains as orders without ties: every tie flag is false.
    pub fn from_total(value: TotalDense) -> (r: TiedDense)
        requires
            value.wf(),
        ensures
            r.wf(),
            r.elements_spec() == value.elements_spec(),
            r.orders_view() == value.orders_view(),
            r.ties_view() == Seq::new(
                value.orders_view().len(),
                |i: int| Seq::new(tie_len(value.elements_spec()), |j: int| false),
            ),
    {
        let len = value.len();
        let e = value.elements;
        let w: usize = if e == 0 {
            0
        } else {
            e - 1
        };
        let ghost flags = Seq::new(w as nat, |j: int| false);
        let mut ties: Vec<bool> = Vec::new();
        let mut i: usize = 0;
        while i < len
            invariant
                i <= len,
                w == tie_len(e as nat),
                flags == Seq::new(w as nat, |j: int| false),
                ties@.len() == i * w,
                blocks(ties@, w as nat, i as nat) =~= Seq::new(i as nat, |k: int| flags),
            decreases len - i,
        {
            let ghost prev = ties@;
            let mut j: usize = 0;
            while j < w
                invariant
                    j <= w,
                    ties@ =~= prev + Seq::new(j as nat, |q: int| false),
                decreases w - j,
            {
                ties.push(false);
                j += 1;
            }
            proof {
                assert(ties@ =~= prev + flags);
                lemma_blocks_push(prev, flags, w as nat, i as nat);
            }
            i += 1;
        }
        let r = TiedDense { orders: value.orders, ties, elements: e };
        proof {
            assert(r.len_spec() == value.len_spec());
            assert forall|k: int| 0 <= k < r.len_spec() implies valid_tied(
                #[trigger] r.orders_view()[k],
                r.ties_view()[k],
            ) && r.orders_view()[k].len() == r.elements by {
                assert(r.orders_view()[k] == value.orders_view()[k]);
            }
            assert(r.ties_view() =~= Seq::new(
                value.orders_view().len(),
                |i: int| Seq::new(tie_len(value.elements_spec()), |j: int| false),
            ));
        }
        r
    }

    /// Packs `refs` into one collection, or `None` where `refs` is empty or two of
    /// them rank different numbers of elements. Orders of no elements leave nothing
    /// to store.
    pub fn from_refs(refs: Vec<TiedRef>) -> (r: Option<TiedDense>)
        ensures
            r is None <==> (refs@.len() == 0 || exists|i: int|
                0 <= i < refs@.len() && #[trigger] refs@[i]@.len() != refs@[0]@.len()),
            r matches Some(d) ==> {
                &&& d.wf()
                &&& d.elements_spec() == refs@[0]@.len()
                &&& d.elements_spec() > 0 ==> d.orders_view() == refs@.map_values(
                    |t: TiedRef| t@,
                ) && d.ties_view() == refs@.map_values(|t: TiedRef| t.ties())
                &&& d.elements_spec() == 0 ==> d.orders_view().len() == 0
            },
    {
        if refs.len() == 0 {
            return None;
        }
        let elements = refs[0].elements();
        let mut i: usize = 0;
        while i < refs.len()
            invariant
                i <= refs@.len(),
                elements == refs@[0]@.len(),
                forall|k: int| 0 <= k < i ==> #[trigger] refs@[k]@.len() == elements,
            decreases refs@.len() - i,
        {
            if refs[i].elements() != elements {
                return None;
            }
            i += 1;
        }
        let mut out = TiedDense::new(elements);
        if elements == 0 {
            return Some(out);
        }
        let mut i: usize = 0;
        while i < refs.len()
            invariant
                i <= refs@.len(),
                elements > 0,
                forall|k: int| 0 <= k < refs@.len() ==> #[trigger] refs@[k]@.len() == elements,
                out.wf(),
                out.elements == elements,
                out.len_spec() == i,
                out.orders_view() =~= refs@.subrange(0, i as int).map_values(|t: TiedRef| t@),
                out.ties_view() =~= refs@.subrange(0, i as int).map_values(
                    |t: TiedRef| t.ties(),
                ),
            decreases refs@.len() - i,
        {
            let v = &refs[i];
            proof {
                use_type_invariant(v);
            }
            let ghost n = out.len_spec();
            let ghost prev = out;
            append_indices(&mut out.orders, v.order());
            append_flags(&mut out.ties, v.tied());
            proof {
                let e = elements as nat;
                lemma_blocks_push(prev.orders@, v@, e, n);
                lemma_blocks_push(prev.ties@, v.ties(), tie_len(e), n);
                lemma_blocks_count(n + 1, e);
                assert(out.len_spec() == n + 1);
                assert forall|k: int| 0 <= k < out.len_spec() implies valid_tied(
                    #[trigger] out.orders_view()[k],
                    out.ties_view()[k],
                ) && out.orders_view()[k].len() == out.elements by {
                    if k < n {
                        assert(out.orders_view()[k] == prev.orders_view()[k]);
                        assert(out.ties_view()[k] == prev.ties_view()[k]);
                    }
                }
                assert(refs@.subrange(0, i + 1) =~= refs@.subrange(0, i as int).push(refs@[i as int]));
            }
            i += 1;
        }
        proof {
            assert(refs@.subrange(0, refs@.len() as int) =~= refs@);
        }
        Some(out)
    }

    /// Picks a winner for each order, uniformly at random among its highest tie group.
    pub fn to_specific_using(self, rng: &mut StdRng) -> (r: SpecificDense)
        requires
            self.wf(),
        ensures
            r.wf(),
            r.elements_spec() == self.elements_spec(),
            r.orders_view().len() == self.orders_view().len(),
            forall|k: int|
                0 <= k < self.orders_view().len() ==> is_winner(
                    self.orders_view()[k],
                    self.ties_view()[k],
                    #[trigger] r.orders_view()[k],
                ),
    {
        let len = self.len();
        let mut winners: Vec<usize> = Vec::with_capacity(len);
        let mut k: usize = 0;
        while k < len
            invariant
                self.wf(),
                len == self.orders_view().len(),
                k <= len,
                winners@.len() == k,
                forall|q: int| 0 <= q < k ==> #[trigger] winners@[q] < self.elements,
                forall|q: int|
                    0 <= q < k ==> is_winner(
                        self.orders_view()[q],
                        self.ties_view()[q],
                        #[trigger] winners@[q],
                    ),
            decreases len - k,
        {
            let o = self.get(k);
            let s = o.winner(rng);
            proof {
                use_type_invariant(&s);
            }
            winners.push(s.value());
            k += 1;
        }
        SpecificDense { orders: winners, elements: self.elements }
    }

    /// Once an element has left the universe, every stored order ranks each of the
    /// remaining elements exactly once: its indices are below the new number of
    /// elements and none repeats.
    pub proof fn lemma_remove_element_shape(before: TiedDense, after: TiedDense, target: usize)
        requires
            before.wf(),
            target < before.elements_spec(),
            after.elements_spec() == before.elements_spec() - 1,
            after.orders_view().len() == if before.elements_spec() == 1 {
                0
            } else {
                before.orders_view().len()
            },
            forall|i: int|
                0 <= i < after.orders_view().len() ==> #[trigger] after.orders_view()[i]
                    == drop_element(before.orders_view()[i], target),
        ensures
            forall|i: int|
                0 <= i < after.orders_view().len() ==> {
                    &&& #[trigger] after.orders_view()[i].len() == after.elements_spec()
                    &&& crate::perm::unique_bounded(
                        after.elements_spec() as int,
                        after.orders_view()[i],
                    )
                },
    {
        assert forall|i: int| 0 <= i < after.orders_view().len() implies {
            &&& #[trigger] after.orders_view()[i].len() == after.elements_spec()
            &&& crate::perm::unique_bounded(after.elements_spec() as int, after.orders_view()[i])
        } by {
            assert(before.orders_view()[i].len() == before.elements);
            lemma_drop_element_permutation(before.orders_view()[i], target);
        }
    }
}

impl Clone for TiedDense {
    fn clone(&self) -> (r: Self)
        ensures
            r.elements_spec() == self.elements_spec(),
            r.orders_view() == self.orders_view(),
            r.ties_view() == self.ties_view(),
            self.wf() ==> r.wf(),
    {
        TiedDense {
            orders: copy_indices(&self.orders),
            ties: copy_flags(&self.ties),
            elements: self.elements,
        }
    }
}

impl<'a> DenseOrders<'a> for TiedDense {
    type Order = TiedRef<'a>;

    open spec fn dense_wf(&self) -> bool {
        self.wf()
    }

    open spec fn dense_elements(&self) -> nat {
        self.elements_spec()
    }

    open spec fn dense_len(&self) -> nat {
        self.orders_view().len()
    }

    open spec fn order_elements(o: &TiedRef<'a>) -> nat {
        o@.len()
    }

    fn elements(&self) -> (r: usize) {
        TiedDense::elements(self)
    }

    fn len(&self) -> (r: usize) {
        TiedDense::len(self)
    }

    fn push(&mut self, v: TiedRef<'a>) -> (r: Result<(), AddError>) {
        TiedDense::push(self, v)
    }

    fn try_get(&'a self, i: usize) -> (r: Option<TiedRef<'a>>) {
        TiedDense::try_get(self, i)
    }

    fn remove_element(&mut self, target: usize) -> (r: Result<(), &'static str>) {
        TiedDense::remove_element(self, target)
    }

    fn generate_uniform(&mut self, rng: &mut StdRng, new_orders: usize) {
        TiedDense::generate_uniform(self, rng, new_orders)
    }
}

} // verus!
