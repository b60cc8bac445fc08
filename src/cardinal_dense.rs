//! A packed collection of cardinal orders that all score the same elements.
use vstd::prelude::*;
use crate::cardinal::CardinalRef;
use crate::dense::{block, blocks, lemma_block_bounds, lemma_blocks_count, lemma_blocks_push};
use crate::perm::{append_indices, lemma_permutation_contains, lemma_position};
use crate::tied::{group_of, lemma_group_of_bound, tied_scores};
use crate::tied_dense::TiedDense;

verus! {

/// Cardinal orders of `elements` elements, packed into one flat array of `elements`
/// scores per order, with the lowest and highest score they may hold.
#[derive(Debug)]
pub struct CardinalDense {
    pub(crate) orders: Vec<usize>,
    pub(crate) elements: usize,
    pub(crate) min: usize,
    pub(crate) max: usize,
}

impl CardinalDense {
    /// The number of elements that every order scores.
    pub open(crate) spec fn elements_spec(&self) -> nat {
        self.elements as nat
    }

    /// The number of stored orders.
    pub open(crate) spec fn len_spec(&self) -> nat {
        if self.elements == 0 {
            0
        } else {
            self.orders@.len() / (self.elements as nat)
        }
    }

    /// The scores of each stored order.
    pub open(crate) spec fn orders_view(&self) -> Seq<Seq<usize>> {
        blocks(self.orders@, self.elements as nat, self.len_spec())
    }

    /// The lowest score an order may give.
    pub open(crate) spec fn min_spec(&self) -> nat {
        self.min as nat
    }

    /// The highest score an order may give.
    pub open(crate) spec fn max_spec(&self) -> nat {
        self.max as nat
    }

    /// The flat array holds whole orders.
    pub open(crate) spec fn wf(&self) -> bool {
        self.orders@.len() == self.len_spec() * self.elements
    }

    /// An empty collection of orders of `elements` elements with scores in `min..=max`.
    pub fn new(elements: usize, min: usize, max: usize) -> (r: Self)
        ensures
            r.wf(),
            r.elements_spec() == elements,
            r.min_spec() == min,
            r.max_spec() == max,
            r.orders_view().len() == 0,
    {
        let r = CardinalDense { orders: Vec::new(), elements, min, max };
        proof {
            if elements > 0 {
                lemma_blocks_count(0, elements as nat);
            }
        }
        r
    }

    /// The number of elements that every order scores.
    pub fn elements(&self) -> (r: usize)
        ensures
            r == self.elements_spec(),
    {
        self.elements
    }

    /// The lowest score an order may give.
    pub fn min(&self) -> (r: usize)
        ensures
            r == self.min_spec(),
    {
        self.min
    }

    /// The highest score an order may give.
    pub fn max(&self) -> (r: usize)
        ensures
            r == self.max_spec(),
    {
        self.max
    }

    /// The number of stored orders.
    pub fn len(&self) -> (r: usize)
        requires
            self.wf(),
        ensures
            r == self.orders_view().len(),
    {
        if self.elements == 0 {
            0
        } else {
            self.orders.len() / self.elements
        }
    }

    /// Whether no order is stored.
    pub fn is_empty(&self) -> (r: bool)
        requires
            self.wf(),
        ensures
            r == (self.orders_view().len() == 0),
    {
        self.len() == 0
    }

    /// Borrows order `i`, or `None` where there is no such order.
    pub fn try_get<'a>(&'a self, i: usize) -> (r: Option<CardinalRef<'a>>)
        requires
            self.wf(),
        ensures
            r is Some <==> i < self.orders_view().len(),
            r matches Some(c) ==> c@ == self.orders_view()[i as int],
    {
        if i < self.len() {
            let e = self.elements;
            let total = self.orders.len();
            proof {
                lemma_block_bounds(i as int, self.len_spec() as int, e as int);
                assert(self.orders_view()[i as int] == block(self.orders@, e as nat, i as int));
            }
            let order = vstd::slice::slice_subrange(self.orders.as_slice(), i * e, i * e + e);
            Some(CardinalRef::new(order))
        } else {
            None
        }
    }

    /// Borrows order `i`.
    pub fn get<'a>(&'a self, i: usize) -> (r: CardinalRef<'a>)
        requires
            self.wf(),
            i < self.orders_view().len(),
        ensures
            r@ == self.orders_view()[i as int],
    {
        self.try_get(i).unwrap()
    }

    /// Scores each tied order: `elements - 1` for its highest tie group, one less for
    /// each tie group further down. Fails only where memory for the scores cannot be
    /// reserved.
    pub fn try_from_tied(value: TiedDense) -> (r: Result<CardinalDense, &'static str>)
        requires
            value.wf(),
        ensures
            r matches Ok(c) ==> {
                &&& c.wf()
                &&& c.elements_spec() == value.elements_spec()
                &&& c.min_spec() == 0
                &&& c.max_spec() == if value.elements_spec() == 0 {
                    0
                } else {
                    value.elements_spec() - 1
                }
                &&& c.orders_view().len() == value.orders_view().len()
                &&& forall|k: int|
                    0 <= k < c.orders_view().len() ==> #[trigger] c.orders_view()[k]
                        == tied_scores(value.orders_view()[k], value.ties_view()[k])
            },
    {
        let len = value.len();
        let e = value.elements();
        let mut orders: Vec<usize> = Vec::new();
        match orders.try_reserve(value.orders.len()) {
            Ok(()) => {},
            Err(_) => {
                return Err("Could not allocate");
            },
        }
        if e == 0 {
            return Ok(CardinalDense::new(0, 0, 0));
        }
        let max = e - 1;
        let mut new_order: Vec<usize> = vec![0; e];
        let mut k: usize = 0;
        while k < len
            invariant
                value.wf(),
                len == value.orders_view().len(),
                e == value.elements_spec(),
                e > 0,
                max == e - 1,
                k <= len,
                new_order@.len() == e,
                orders@.len() == k * e,
                blocks(orders@, e as nat, k as nat) =~= Seq::new(
                    k as nat,
                    |q: int| tied_scores(value.orders_view()[q], value.ties_view()[q]),
                ),
            decreases len - k,
        {
            let o = value.get(k);
            proof {
                use_type_invariant(&o);
            }
            let ord = o.order();
            let tied = o.tied();
            let mut g: usize = 0;
            let mut i: usize = 0;
            while i < e
                invariant
                    ord@ == o@,
                    tied@ == o.ties(),
                    o@.len() == e,
                    tied@.len() == e - 1,
                    crate::perm::is_permutation(o@),
                    max == e - 1,
                    i <= e,
                    i < e ==> g == group_of(tied@, i as int),
                    new_order@.len() == e,
                    forall|q: int| 0 <= q < i ==> #[trigger] new_order@[ord@[q] as int] == max
                        - group_of(tied@, q),
                decreases e - i,
            {
                proof {
                    lemma_group_of_bound(tied@, i as int);
                }
                new_order.set(ord[i], max - g);
                if i + 1 < e && !tied[i] {
                    g += 1;
                }
                i += 1;
            }
            proof {
                let s = tied_scores(o@, o.ties());
                assert forall|c: int| 0 <= c < e implies new_order@[c] == #[trigger] s[c] by {
                    lemma_permutation_contains(o@, c as usize);
                    let q = choose|q: int| 0 <= q < e && o@[q] == c as usize;
                    lemma_position(o@, c as usize, q);
                }
                assert(new_order@ =~= s);
                lemma_blocks_push(orders@, new_order@, e as nat, k as nat);
            }
            append_indices(&mut orders, new_order.as_slice());
            k += 1;
        }
        let r = CardinalDense { orders, elements: e, min: 0, max };
        proof {
            lemma_blocks_count(len as nat, e as nat);
            assert(r.len_spec() == len);
        }
        Ok(r)
    }
}

} // verus!
