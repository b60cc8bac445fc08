//! The relation engine: a strict partial order over `elements` elements, stored as the
//! full matrix of which element lies below which.
use vstd::prelude::*;
use crate::dense::lemma_block_bounds;

verus! {

/// The place of the pair `(i, j)` in a flat `n` by `n` matrix.
pub open spec fn cell(n: int, i: int, j: int) -> int {
    i * n + j
}

/// Distinct pairs of elements have distinct places in the matrix, all inside it.
pub proof fn lemma_cell(n: int, i: int, j: int, i2: int, j2: int)
    requires
        0 <= i < n,
        0 <= j < n,
        0 <= i2 < n,
        0 <= j2 < n,
    ensures
        0 <= cell(n, i, j) < n * n,
        (i != i2 || j != j2) ==> cell(n, i, j) != cell(n, i2, j2),
{
    lemma_block_bounds(i, n, n);
    if i < i2 {
        assert(i * n + n <= i2 * n) by (nonlinear_arith)
            requires
                i + 1 <= i2,
                0 <= n,
        ;
    } else if i2 < i {
        assert(i2 * n + n <= i * n) by (nonlinear_arith)
            requires
                i2 + 1 <= i,
                0 <= n,
        ;
    }
}

/// The position of the pair `(i, j)` in a flat `n` by `n` matrix of `total` cells.
fn cell_index(n: usize, total: usize, i: usize, j: usize) -> (r: usize)
    requires
        total == n * n,
        i < n,
        j < n,
    ensures
        r == cell(n as int, i as int, j as int),
        r < total,
{
    proof {
        lemma_cell(n as int, i as int, j as int, i as int, j as int);
    }
    i * n + j
}

/// A strict partial order over `elements` elements.
#[derive(Debug)]
pub struct PartialOrder {
    pub(crate) elements: usize,
    pub(crate) lt: Vec<bool>,
}

/// A relation under construction: pairs are recorded one at a time, then the result
/// is checked, or taken on the builder's word, to be a partial order.
#[derive(Debug)]
pub struct PartialOrderManual {
    pub(crate) elements: usize,
    pub(crate) lt: Vec<bool>,
}

impl PartialOrder {
    /// The number of elements.
    pub closed spec fn elements_spec(&self) -> nat {
        self.elements as nat
    }

    /// Whether element `i` lies strictly below element `j`.
    pub closed spec fn below(&self, i: int, j: int) -> bool {
        self.lt@[cell(self.elements as int, i, j)]
    }

    /// No element lies below itself, and lying below is transitive.
    pub open spec fn is_strict(&self) -> bool {
        &&& forall|i: int| 0 <= i < self.elements_spec() ==> !#[trigger] self.below(i, i)
        &&& forall|i: int, j: int, k: int|
            0 <= i < self.elements_spec() && 0 <= j < self.elements_spec() && 0 <= k < self.elements_spec()
                && #[trigger] self.below(i, j) && #[trigger] self.below(j, k) ==> self.below(i, k)
    }

    #[verifier::type_invariant]
    pub(crate) closed spec fn inv(&self) -> bool {
        &&& self.lt@.len() == self.elements * self.elements
        &&& self.is_strict()
    }

    /// The number of elements.
    pub fn elements(&self) -> (r: usize)
        ensures
            r == self.elements_spec(),
    {
        self.elements
    }

    /// Whether `i` lies strictly below `j`.
    pub fn lt(&self, i: usize, j: usize) -> (r: bool)
        requires
            i < self.elements_spec(),
            j < self.elements_spec(),
        ensures
            r == self.below(i as int, j as int),
    {
        proof {
            use_type_invariant(self);
        }
        self.lt[cell_index(self.elements, self.lt.len(), i, j)]
    }

    /// Whether `i` is `j` or lies below it.
    pub fn le(&self, i: usize, j: usize) -> (r: bool)
        requires
            i < self.elements_spec(),
            j < self.elements_spec(),
        ensures
            r == (i == j || self.below(i as int, j as int)),
    {
        i == j || self.lt(i, j)
    }

    /// Whether `i` and `j` are the same element.
    pub fn eq(&self, i: usize, j: usize) -> (r: bool)
        requires
            i < self.elements_spec(),
            j < self.elements_spec(),
        ensures
            r == (i == j),
    {
        i == j
    }

    /// Whether neither of `i` and `j` is `le` the other.
    pub fn incomparable(&self, i: usize, j: usize) -> (r: bool)
        requires
            i < self.elements_spec(),
            j < self.elements_spec(),
        ensures
            r == (i != j && !self.below(i as int, j as int) && !self.below(j as int, i as int)),
    {
        !self.le(i, j) && !self.le(j, i)
    }
}

impl PartialOrderManual {
    /// The number of elements.
    pub closed spec fn elements_spec(&self) -> nat {
        self.elements as nat
    }

    /// Whether the pair `(i, j)`, `i` below `j`, has been recorded.
    pub closed spec fn below(&self, i: int, j: int) -> bool {
        self.lt@[cell(self.elements as int, i, j)]
    }

    /// No element is recorded below itself, and the recorded pairs are transitive.
    pub open spec fn is_strict(&self) -> bool {
        &&& forall|i: int| 0 <= i < self.elements_spec() ==> !#[trigger] self.below(i, i)
        &&& forall|i: int, j: int, k: int|
            0 <= i < self.elements_spec() && 0 <= j < self.elements_spec() && 0 <= k < self.elements_spec()
                && #[trigger] self.below(i, j) && #[trigger] self.below(j, k) ==> self.below(i, k)
    }

    /// The matrix has one cell per pair of elements.
    pub closed spec fn wf(&self) -> bool {
        self.lt@.len() == self.elements * self.elements
    }

    /// An empty relation over `elements` elements: no pair recorded.
    pub fn new(elements: usize) -> (r: Self)
        requires
            elements * elements <= usize::MAX,
        ensures
            r.wf(),
            r.elements_spec() == elements,
            forall|i: int, j: int|
                0 <= i < elements && 0 <= j < elements ==> !#[trigger] r.below(i, j),
    {
        let size = elements * elements;
        let lt = vec![false; size];
        let r = PartialOrderManual { elements, lt };
        proof {
            assert forall|i: int, j: int| 0 <= i < elements && 0 <= j < elements implies !#[trigger] r.below(i, j) by {
                lemma_cell(elements as int, i, j, i, j);
            }
        }
        r
    }

    /// The number of elements.
    pub fn elements(&self) -> (r: usize)
        ensures
            r == self.elements_spec(),
    {
        self.elements
    }

    /// Records that `lesser` lies strictly below `greater`.
    pub fn set(&mut self, lesser: usize, greater: usize)
        requires
            old(self).wf(),
            lesser < old(self).elements_spec(),
            greater < old(self).elements_spec(),
        ensures
            final(self).wf(),
            final(self).elements_spec() == old(self).elements_spec(),
            forall|i: int, j: int|
                0 <= i < old(self).elements_spec() && 0 <= j < old(self).elements_spec() ==> #[trigger] final(self).below(i, j) == (old(self).below(i, j) || (i == lesser && j == greater)),
    {
        let n = self.elements;
        let ghost prev = *self;
        let k = cell_index(n, self.lt.len(), lesser, greater);
        self.lt.set(k, true);
        proof {
            assert forall|i: int, j: int| 0 <= i < n && 0 <= j < n implies #[trigger] self.below(i, j) == (prev.below(i, j) || (i == lesser && j == greater)) by {
                lemma_cell(n as int, i, j, lesser as int, greater as int);
            }
        }
    }

    /// Whether the recorded relation is a strict partial order.
    fn check_strict(&self) -> (r: bool)
        requires
            self.wf(),
        ensures
            r == self.is_strict(),
    {
        let n = self.elements;
        let mut i: usize = 0;
        while i < n
            invariant
                n == self.elements,
                self.lt@.len() == n * n,
                i <= n,
                forall|a: int| 0 <= a < i ==> !#[trigger] self.below(a, a),
            decreases n - i,
        {
            if self.lt[cell_index(n, self.lt.len(), i, i)] {
                proof {
                    assert(self.below(i as int, i as int));
                }
                return false;
            }
            i += 1;
        }
        let mut a: usize = 0;
        while a < n
            invariant
                n == self.elements,
                self.lt@.len() == n * n,
                a <= n,
                forall|x: int| 0 <= x < n ==> !#[trigger] self.below(x, x),
                forall|x: int, y: int, z: int|
                    0 <= x < a && 0 <= y < n && 0 <= z < n && #[trigger] self.below(x, y)
                        && #[trigger] self.below(y, z) ==> self.below(x, z),
            decreases n - a,
        {
            let mut b: usize = 0;
            while b < n
                invariant
                    n == self.elements,
                    self.lt@.len() == n * n,
                    a < n,
                    b <= n,
                    forall|x: int, y: int, z: int|
                        0 <= x < a && 0 <= y < n && 0 <= z < n && #[trigger] self.below(x, y)
                            && #[trigger] self.below(y, z) ==> self.below(x, z),
                    forall|y: int, z: int|
                        0 <= y < b && 0 <= z < n && #[trigger] self.below(a as int, y)
                            && #[trigger] self.below(y, z) ==> self.below(a as int, z),
                decreases n - b,
            {
                if self.lt[cell_index(n, self.lt.len(), a, b)] {
                    let mut c: usize = 0;
                    while c < n
                        invariant
                            n == self.elements,
                            self.lt@.len() == n * n,
                            a < n,
                            b < n,
                            c <= n,
                            self.below(a as int, b as int),
                            forall|z: int| 0 <= z < c && #[trigger] self.below(b as int, z) ==> self.below(a as int, z),
                        decreases n - c,
                    {
                        if self.lt[cell_index(n, self.lt.len(), b, c)]
                            && !self.lt[cell_index(n, self.lt.len(), a, c)] {
                            proof {
                                assert(self.below(a as int, b as int) && self.below(b as int, c as int)
                                    && !self.below(a as int, c as int));
                            }
                            return false;
                        }
                        c += 1;
                    }
                }
                b += 1;
            }
            a += 1;
        }
        true
    }

    /// The recorded relation as a partial order, or `None` where some element lies
    /// below itself or lying below is not transitive.
    pub fn finish(self) -> (r: Option<PartialOrder>)
        requires
            self.wf(),
        ensures
            r is Some <==> self.is_strict(),
            r matches Some(p) ==> p.elements_spec() == self.elements_spec() && forall|i: int, j: int| 0 <= i < self.elements_spec() && 0 <= j < self.elements_spec() ==> #[trigger] p.below(i, j) == self.below(i, j),
    {
        if self.check_strict() {
            Some(self.finish_unchecked())
        } else {
            None
        }
    }

    /// The recorded relation as a partial order, skipping the cubic check: the caller
    /// must already know it is one.
    pub fn finish_unchecked(self) -> (r: PartialOrder)
        requires
            self.wf(),
            self.is_strict(),
        ensures
            r.elements_spec() == self.elements_spec(),
            forall|i: int, j: int| 0 <= i < self.elements_spec() && 0 <= j < self.elements_spec() ==> #[trigger] r.below(i, j) == self.below(i, j),
    {
        let ghost r0 = PartialOrder { elements: self.elements, lt: self.lt };
        proof {
            assert forall|i: int, j: int| #[trigger] r0.below(i, j) == self.below(i, j) by {}
            assert(r0.is_strict());
        }
        PartialOrder { elements: self.elements, lt: self.lt }
    }
}

} // verus!
