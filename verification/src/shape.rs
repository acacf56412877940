//! The shape of a tensor: the size of each of its dimensions.
use vstd::prelude::*;
use crate::model::{
    contiguous_stride_at, fortran_stride_at, is_c_contiguous, is_f_contiguous, lemma_c_contiguous_iff,
    lemma_f_contiguous_iff, lemma_prod_extend_left, lemma_prod_extend_right, prefix_products_fit, prod, suffix_products_fit,
};

verus! {

/// The dimensions of a tensor, outermost first.
#[derive(Clone, PartialEq, Eq, Debug)]
pub struct Shape(Vec<usize>);

impl View for Shape {
    type V = Seq<usize>;

    closed spec fn view(&self) -> Seq<usize> {
        self.0@
    }
}

impl Shape {
    /// Builds a shape that owns the given dimensions.
    pub fn from_vec(dims: Vec<usize>) -> (r: Shape)
        ensures
            r@ == dims@,
    {
        Shape(dims)
    }

    /// Builds a shape from a slice of dimensions.
    pub fn from_dims(dims: &[usize]) -> (r: Shape)
        ensures
            r@ == dims@,
    {
        Shape(vstd::slice::slice_to_vec(dims))
    }

    /// A copy of this shape.
    pub fn to_shape(&self) -> (r: Shape)
        ensures
            r@ == self@,
    {
        Shape(vstd::slice::slice_to_vec(self.0.as_slice()))
    }

    /// The dimensions, outermost first.
    pub fn dims(&self) -> (r: &[usize])
        ensures
            r@ == self@,
    {
        self.0.as_slice()
    }

    /// The number of dimensions.
    pub fn rank(&self) -> (r: usize)
        ensures
            r == self@.len(),
    {
        self.0.len()
    }

    /// The number of elements: the product of the dimensions.
    pub fn elem_count(&self) -> (r: usize)
        requires
            prefix_products_fit(self@),
        ensures
            r == prod(self@),
    {
        let n = self.0.len();
        let mut acc: usize = 1;
        let mut i: usize = 0;
        assert(self@.subrange(0, 0) =~= Seq::<usize>::empty());
        while i < n
            invariant
                n == self@.len(),
                i <= n,
                prefix_products_fit(self@),
                acc == prod(self@.subrange(0, i as int)),
            decreases n - i,
        {
            proof {
                lemma_prod_extend_right(self@, 0, i as int);
                assert(prod(self@.subrange(0, i + 1)) <= usize::MAX);
            }
            acc = acc * self.0[i];
            i = i + 1;
        }
        assert(self@.subrange(0, n as int) =~= self@);
        acc
    }

    /// The strides of the C-contiguous (row-major) layout of this shape.
    pub fn stride_contiguous(&self) -> (r: Vec<usize>)
        requires
            suffix_products_fit(self@),
        ensures
            r@.len() == self@.len(),
            forall|i: int| 0 <= i < self@.len() ==> r@[i] == #[trigger] contiguous_stride_at(self@, i),
    {
        let n = self.0.len();
        let mut stride: Vec<usize> = vec![0; n];
        let mut acc: usize = 1;
        let mut i: usize = n;
        assert(self@.subrange(n as int, n as int) =~= Seq::<usize>::empty());
        while i > 0
            invariant
                n == self@.len(),
                i <= n,
                stride@.len() == n,
                suffix_products_fit(self@),
                acc == prod(self@.subrange(i as int, n as int)),
                forall|j: int| i <= j < n ==> stride@[j] == #[trigger] contiguous_stride_at(self@, j),
            decreases i,
        {
            i = i - 1;
            stride.set(i, acc);
            proof {
                lemma_prod_extend_left(self@, i as int + 1, n as int);
                assert(prod(self@.subrange(i as int, n as int)) <= usize::MAX);
                assert(contiguous_stride_at(self@, i as int) == prod(self@.subrange(i + 1, n as int)));
            }
            acc = self.0[i] * acc;
        }
        stride
    }

    /// Whether `stride` describes a C-contiguous (row-major) layout of this shape.
    pub fn is_contiguous(&self, stride: &[usize]) -> (r: bool)
        ensures
            r == is_c_contiguous(self@, stride@),
            r == (stride@.len() == self@.len() && forall|i: int| 0 <= i < self@.len() && self@[i] > 1
                ==> #[trigger] stride@[i] == prod(self@.subrange(i + 1, self@.len() as int))),
    {
        proof {
            lemma_c_contiguous_iff(self@, stride@);
        }
        let n = self.0.len();
        if n != stride.len() {
            return false;
        }
        // `acc` is the product of the dimensions to the right, unless `big`, in which case
        // that product exceeds `usize::MAX`.
        let mut acc: usize = 1;
        let mut big = false;
        let mut i: usize = n;
        assert(self@.subrange(n as int, n as int) =~= Seq::<usize>::empty());
        while i > 0
            invariant
                n == self@.len(),
                n == stride@.len(),
                i <= n,
                !big ==> acc == prod(self@.subrange(i as int, n as int)),
                big ==> prod(self@.subrange(i as int, n as int)) > usize::MAX,
                forall|j: int| i <= j < n && self@[j] > 1 ==> stride@[j] == #[trigger] contiguous_stride_at(self@, j),
            decreases i,
        {
            i = i - 1;
            let dim = self.0[i];
            proof {
                lemma_prod_extend_left(self@, i as int + 1, n as int);
                assert(contiguous_stride_at(self@, i as int) == prod(self@.subrange(i + 1, n as int)));
            }
            if dim > 1 && (big || stride[i] != acc) {
                return false;
            }
            if dim == 0 {
                proof {
                    vstd::arithmetic::mul::lemma_mul_basics(prod(self@.subrange(i + 1, n as int)) as int);
                }
                acc = 0;
                big = false;
            } else if !big {
                match acc.checked_mul(dim) {
                    Some(v) => {
                        proof { vstd::arithmetic::mul::lemma_mul_is_commutative(acc as int, dim as int); }
                        acc = v;
                    },
                    None => {
                        proof { vstd::arithmetic::mul::lemma_mul_is_commutative(acc as int, dim as int); }
                        big = true;
                    },
                }
            } else {
                proof {
                    vstd::arithmetic::mul::lemma_mul_inequality(1, dim as int, prod(self@.subrange(i + 1, n as int)) as int);
                }
            }
        }
        true
    }

    /// Whether `stride` describes a Fortran-contiguous (column-major) layout of this shape.
    pub fn is_fortran_contiguous(&self, stride: &[usize]) -> (r: bool)
        ensures
            r == is_f_contiguous(self@, stride@),
            r == (stride@.len() == self@.len() && forall|i: int| 0 <= i < self@.len() && self@[i] > 1
                ==> #[trigger] stride@[i] == prod(self@.subrange(0, i))),
    {
        proof {
            lemma_f_contiguous_iff(self@, stride@);
        }
        let n = self.0.len();
        if n != stride.len() {
            return false;
        }
        // `acc` is the product of the dimensions to the left, unless `big`, in which case
        // that product exceeds `usize::MAX`.
        let mut acc: usize = 1;
        let mut big = false;
        let mut i: usize = 0;
        assert(self@.subrange(0, 0) =~= Seq::<usize>::empty());
        while i < n
            invariant
                n == self@.len(),
                n == stride@.len(),
                i <= n,
                !big ==> acc == prod(self@.subrange(0, i as int)),
                big ==> prod(self@.subrange(0, i as int)) > usize::MAX,
                forall|j: int| 0 <= j < i && self@[j] > 1 ==> stride@[j] == #[trigger] fortran_stride_at(self@, j),
            decreases n - i,
        {
            let dim = self.0[i];
            proof {
                lemma_prod_extend_right(self@, 0, i as int);
            }
            if dim > 1 && (big || stride[i] != acc) {
                proof {
                    assert(stride@[i as int] != fortran_stride_at(self@, i as int));
                }
                return false;
            }
            if dim == 0 {
                proof {
                    vstd::arithmetic::mul::lemma_mul_basics(prod(self@.subrange(0, i as int)) as int);
                }
                acc = 0;
                big = false;
            } else if !big {
                match acc.checked_mul(dim) {
                    Some(v) => {
                        acc = v;
                    },
                    None => {
                        big = true;
                    },
                }
            } else {
                proof {
                    vstd::arithmetic::mul::lemma_mul_inequality(1, dim as int, prod(self@.subrange(0, i as int)) as int);
                    vstd::arithmetic::mul::lemma_mul_is_commutative(dim as int, prod(self@.subrange(0, i as int)) as int);
                }
            }
            i = i + 1;
        }
        true
    }
}

} // verus!
