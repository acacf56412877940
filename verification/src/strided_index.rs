//! Walking the storage offsets of a strided layout.
use vstd::prelude::*;
use crate::model::{lemma_prod_zero, prod};

verus! {

/// `sum_i mi[i] * stride[i]`: the offset, from the first element, of the element whose
/// index along each dimension is `mi`.
pub open spec fn index_offset(mi: Seq<usize>, stride: Seq<usize>) -> int
    decreases mi.len(),
{
    if mi.len() == 0 || stride.len() == 0 {
        0
    } else {
        index_offset(mi.drop_last(), stride.drop_last()) + mi.last() * stride.last()
    }
}

/// The index, along each dimension, of the element after the one at `mi` in row-major
/// order (the innermost index advances, carrying into the outer ones), or `None` after the
/// last element.
pub open spec fn next_multi_index(mi: Seq<usize>, dims: Seq<usize>) -> Option<Seq<usize>>
    decreases mi.len(),
{
    if mi.len() == 0 || dims.len() == 0 {
        None
    } else if mi.last() + 1 < dims.last() {
        Some(mi.drop_last().push((mi.last() + 1) as usize))
    } else {
        match next_multi_index(mi.drop_last(), dims.drop_last()) {
            Some(p) => Some(p.push(0usize)),
            None => None,
        }
    }
}

/// `n` zeros.
pub open spec fn zeros(n: int) -> Seq<usize> {
    Seq::new(n as nat, |i: int| 0usize)
}

proof fn lemma_index_offset_nonneg(mi: Seq<usize>, stride: Seq<usize>)
    ensures
        index_offset(mi, stride) >= 0,
    decreases mi.len(),
{
    if mi.len() > 0 && stride.len() > 0 {
        lemma_index_offset_nonneg(mi.drop_last(), stride.drop_last());
        vstd::arithmetic::mul::lemma_mul_nonnegative(mi.last() as int, stride.last() as int);
    }
}

proof fn lemma_index_offset_step(mi: Seq<usize>, stride: Seq<usize>, i: int)
    requires
        0 <= i < mi.len(),
        mi.len() == stride.len(),
    ensures
        index_offset(mi.subrange(0, i + 1), stride.subrange(0, i + 1)) == index_offset(
            mi.subrange(0, i),
            stride.subrange(0, i),
        ) + mi[i] * stride[i],
{
    assert(mi.subrange(0, i + 1).drop_last() =~= mi.subrange(0, i));
    assert(stride.subrange(0, i + 1).drop_last() =~= stride.subrange(0, i));
}

/// Trailing zero indices add nothing to the offset.
proof fn lemma_index_offset_zeros(a: Seq<usize>, stride: Seq<usize>, z: int)
    requires
        0 <= z,
        stride.len() == a.len() + z,
    ensures
        index_offset(a + zeros(z), stride) == index_offset(a, stride.subrange(0, a.len() as int)),
    decreases z,
{
    if z == 0 {
        assert(a + zeros(z) =~= a);
        assert(stride.subrange(0, a.len() as int) =~= stride);
    } else {
        assert((a + zeros(z)).drop_last() =~= a + zeros(z - 1));
        assert((a + zeros(z)).last() == 0);
        lemma_index_offset_zeros(a, stride.drop_last(), z - 1);
        assert(stride.drop_last().subrange(0, a.len() as int) =~= stride.subrange(0, a.len() as int));
        vstd::arithmetic::mul::lemma_mul_basics(stride.last() as int);
    }
}

/// When every index from `i` on is at its last value, the next index carries into the
/// dimensions before `i` and resets those from `i` on.
proof fn lemma_next_full_suffix(mi: Seq<usize>, dims: Seq<usize>, i: int)
    requires
        mi.len() == dims.len(),
        0 <= i <= mi.len(),
        forall|j: int| i <= j < mi.len() ==> mi[j] + 1 >= dims[j],
    ensures
        next_multi_index(mi, dims) == match next_multi_index(mi.subrange(0, i), dims.subrange(0, i)) {
            Some(p) => Some(p + zeros(mi.len() - i)),
            None => None::<Seq<usize>>,
        },
    decreases mi.len() - i,
{
    let n = mi.len() as int;
    if i == n {
        assert(mi.subrange(0, n) =~= mi);
        assert(dims.subrange(0, n) =~= dims);
        match next_multi_index(mi, dims) {
            Some(p) => {
                assert(p + zeros(0) =~= p);
            },
            None => {},
        }
    } else {
        lemma_next_full_suffix(mi.drop_last(), dims.drop_last(), i);
        assert(mi.drop_last().subrange(0, i) =~= mi.subrange(0, i));
        assert(dims.drop_last().subrange(0, i) =~= dims.subrange(0, i));
        match next_multi_index(mi.subrange(0, i), dims.subrange(0, i)) {
            Some(p) => {
                assert((p + zeros(n - 1 - i)).push(0usize) =~= p + zeros(n - i));
            },
            None => {},
        }
    }
}

/// The next index stays within the dimensions.
proof fn lemma_next_in_range(mi: Seq<usize>, dims: Seq<usize>)
    requires
        mi.len() == dims.len(),
        forall|i: int| 0 <= i < mi.len() ==> mi[i] < dims[i],
    ensures
        next_multi_index(mi, dims) matches Some(m2) ==> m2.len() == mi.len() && forall|i: int|
            0 <= i < m2.len() ==> #[trigger] m2[i] < dims[i],
    decreases mi.len(),
{
    if mi.len() > 0 {
        lemma_next_in_range(mi.drop_last(), dims.drop_last());
        match next_multi_index(mi, dims) {
            Some(m2) => {
                assert forall|i: int| 0 <= i < m2.len() implies #[trigger] m2[i] < dims[i] by {
                    if i < mi.len() - 1 {
                        assert(dims.drop_last()[i] == dims[i]);
                        assert(mi.drop_last()[i] == mi[i]);
                    } else {
                        assert(mi[mi.len() - 1] < dims[mi.len() - 1]);
                    }
                }
            },
            None => {},
        }
    }
}

/// The position of a walk over the elements of a strided layout, in row-major order:
/// the storage offset of the next element (`None` once the walk is over, or for a
/// layout without elements) and its index along each dimension.
pub struct StridedIndex<'a> {
    next_storage_index: Option<usize>,
    multi_index: Vec<usize>,
    dims: &'a [usize],
    stride: &'a [usize],
}

impl<'a> StridedIndex<'a> {
    /// The dimensions walked over.
    pub closed spec fn dims_view(&self) -> Seq<usize> {
        self.dims@
    }

    /// Their strides.
    pub closed spec fn stride_view(&self) -> Seq<usize> {
        self.stride@
    }

    /// The storage offset of the next element, if any.
    pub closed spec fn next_index_view(&self) -> Option<usize> {
        self.next_storage_index
    }

    /// The index of the next element along each dimension.
    pub closed spec fn multi_index_view(&self) -> Seq<usize> {
        self.multi_index@
    }

    /// A consistent position: one index and one stride per dimension, each index within
    /// its dimension, and the next storage offset at least the offset of that index.
    pub open spec fn valid(&self) -> bool {
        &&& self.multi_index_view().len() == self.dims_view().len()
        &&& self.stride_view().len() == self.dims_view().len()
        &&& (self.next_index_view() matches Some(x) ==> (forall|i: int|
            0 <= i < self.dims_view().len() ==> #[trigger] self.multi_index_view()[i] < self.dims_view()[i]) && x
            >= index_offset(self.multi_index_view(), self.stride_view()))
    }

    /// Returns the storage offset of the next element and advances the walk: the innermost
    /// index that can grow does, the indices inside it go back to zero, and the offset
    /// moves accordingly. After the last element the walk is over.
    pub fn next(&mut self) -> (r: Option<usize>)
        requires
            old(self).valid(),
            old(self).next_index_view() matches Some(x) ==> (next_multi_index(
                old(self).multi_index_view(),
                old(self).dims_view(),
            ) matches Some(m2) ==> x - index_offset(old(self).multi_index_view(), old(self).stride_view())
                + index_offset(m2, old(self).stride_view()) <= usize::MAX),
        ensures
            final(self).valid(),
            final(self).dims_view() == old(self).dims_view(),
            final(self).stride_view() == old(self).stride_view(),
            r == old(self).next_index_view(),
            old(self).next_index_view() is None ==> final(self).next_index_view() is None
                && final(self).multi_index_view() == old(self).multi_index_view(),
            old(self).next_index_view() matches Some(x) ==> match next_multi_index(
                old(self).multi_index_view(),
                old(self).dims_view(),
            ) {
                Some(m2) => final(self).multi_index_view() == m2 && final(self).next_index_view() == Some(
                    (x - index_offset(old(self).multi_index_view(), old(self).stride_view())
                        + index_offset(m2, old(self).stride_view())) as usize,
                ),
                None => final(self).multi_index_view() == zeros(old(self).dims_view().len() as int)
                    && final(self).next_index_view() is None,
            },
    {
        let storage_index = match self.next_storage_index {
            Some(x) => x,
            None => return None,
        };
        let ghost mi0 = self.multi_index@;
        let ghost d = self.dims@;
        let ghost s = self.stride@;
        let n = self.multi_index.len();
        let mut updated = false;
        let mut next_storage_index = storage_index;
        let mut i: usize = n;
        proof {
            assert(mi0.subrange(0, n as int) + zeros(0) =~= mi0);
            assert(mi0.subrange(0, n as int) =~= mi0);
            assert(s.subrange(0, n as int) =~= s);
            lemma_next_full_suffix(mi0, d, n as int);
        }
        while i > 0 && !updated
            invariant
                mi0.len() == n,
                d == self.dims@,
                s == self.stride@,
                d.len() == n,
                s.len() == n,
                i <= n,
                self.multi_index@.len() == n,
                forall|j: int| 0 <= j < n ==> mi0[j] < d[j],
                storage_index >= index_offset(mi0, s),
                storage_index <= usize::MAX,
                next_multi_index(mi0, d) is Some ==> storage_index - index_offset(mi0, s) + index_offset(
                    next_multi_index(mi0, d)->0,
                    s,
                ) <= usize::MAX,
                !updated ==> self.multi_index@ == mi0.subrange(0, i as int) + zeros(n - i),
                !updated ==> next_storage_index == storage_index - (index_offset(mi0, s) - index_offset(
                    mi0.subrange(0, i as int),
                    s.subrange(0, i as int),
                )),
                !updated ==> forall|j: int| i <= j < n ==> mi0[j] + 1 >= d[j],
                updated ==> (next_multi_index(mi0, d) is Some && self.multi_index@ == next_multi_index(mi0, d)->0
                    && next_storage_index == storage_index - index_offset(mi0, s) + index_offset(
                    next_multi_index(mi0, d)->0,
                    s,
                )),
            decreases i + (if updated { 0int } else { 1int }),
        {
            let k = i - 1;
            proof {
                lemma_index_offset_step(mi0, s, k as int);
                lemma_index_offset_nonneg(mi0.subrange(0, k as int), s.subrange(0, k as int));
                lemma_index_offset_nonneg(mi0, s);
                vstd::arithmetic::mul::lemma_mul_nonnegative(mi0[k as int] as int, s[k as int] as int);
                lemma_next_full_suffix(mi0, d, k as int + 1);
                assert(mi0.subrange(0, k + 1).drop_last() =~= mi0.subrange(0, k as int));
                assert(d.subrange(0, k + 1).drop_last() =~= d.subrange(0, k as int));
                assert(self.multi_index@[k as int] == mi0[k as int]);
            }
            let multi_i = self.multi_index[k];
            let next_i = multi_i + 1;
            if next_i < self.dims[k] {
                proof {
                    let m2 = mi0.subrange(0, k as int).push(next_i) + zeros(n - k - 1);
                    assert(next_multi_index(mi0, d) == Some(m2));
                    assert(mi0.subrange(0, k as int).push(next_i) =~= mi0.subrange(0, k as int) + seq![next_i]);
                    lemma_index_offset_zeros(mi0.subrange(0, k as int).push(next_i), s, n - k - 1);
                    assert(s.subrange(0, k + 1).drop_last() =~= s.subrange(0, k as int));
                    assert(mi0.subrange(0, k as int).push(next_i).drop_last() =~= mi0.subrange(0, k as int));
                    vstd::arithmetic::mul::lemma_mul_is_distributive_add_other_way(
                        s[k as int] as int,
                        mi0[k as int] as int,
                        1,
                    );
                    vstd::arithmetic::mul::lemma_mul_basics(s[k as int] as int);
                }
                self.multi_index.set(k, next_i);
                next_storage_index = next_storage_index + self.stride[k];
                updated = true;
                proof {
                    let m2 = mi0.subrange(0, k as int).push(next_i) + zeros(n - k - 1);
                    assert(self.multi_index@ =~= m2);
                }
            } else {
                next_storage_index = next_storage_index - multi_i * self.stride[k];
                self.multi_index.set(k, 0);
                i = k;
                proof {
                    assert(self.multi_index@ =~= mi0.subrange(0, i as int) + zeros(n - i));
                }
            }
        }
        proof {
            if !updated {
                assert(mi0.subrange(0, 0) =~= Seq::<usize>::empty());
                assert(d.subrange(0, 0) =~= Seq::<usize>::empty());
                assert(Seq::<usize>::empty() + zeros(n as int) =~= zeros(n as int));
                lemma_next_full_suffix(mi0, d, 0);
            } else {
                let m2 = next_multi_index(mi0, d)->0;
                lemma_index_offset_nonneg(m2, s);
                lemma_next_in_range(mi0, d);
            }
        }
        self.next_storage_index = if updated { Some(next_storage_index) } else { None };
        Some(storage_index)
    }

    /// The start of a walk over the layout with dimensions `dims` and strides `stride`
    /// whose first element is at `start_offset`.
    pub fn new(dims: &'a [usize], stride: &'a [usize], start_offset: usize) -> (r: Self)
        ensures
            r.dims_view() == dims@,
            r.stride_view() == stride@,
            r.next_index_view() == (if prod(dims@) == 0 { None } else { Some(start_offset) }),
            r.multi_index_view().len() == dims@.len(),
            forall|i: int| 0 <= i < dims@.len() ==> r.multi_index_view()[i] == 0,
            dims@.len() == stride@.len() ==> r.valid(),
    {
        // The walk is empty exactly when some dimension is empty.
        let mut has_empty_dim = false;
        let mut i: usize = 0;
        while i < dims.len()
            invariant
                i <= dims@.len(),
                has_empty_dim == exists|j: int| 0 <= j < i && dims@[j] == 0,
            decreases dims@.len() - i,
        {
            if dims[i] == 0 {
                has_empty_dim = true;
            }
            i = i + 1;
        }
        proof {
            lemma_prod_zero(dims@);
        }
        let next_storage_index = if has_empty_dim { None } else { Some(start_offset) };
        let multi_index: Vec<usize> = vec![0; dims.len()];
        proof {
            assert(multi_index@ =~= zeros(dims@.len() as int));
            assert(Seq::<usize>::empty() + zeros(dims@.len() as int) =~= zeros(dims@.len() as int));
            if dims@.len() == stride@.len() {
                lemma_index_offset_zeros(Seq::<usize>::empty(), stride@, dims@.len() as int);
            }
            if !has_empty_dim {
                assert forall|i: int| 0 <= i < dims@.len() implies multi_index@[i] < dims@[i] by {
                    assert(dims@[i] != 0);
                }
            }
        }
        StridedIndex { next_storage_index, multi_index, dims, stride }
    }
}

/// The storage of a strided layout as blocks of contiguous elements.
pub enum StridedBlocks<'a> {
    /// All the elements form one contiguous block.
    SingleBlock { start_offset: usize, len: usize },
    /// Blocks of `block_len` contiguous elements, starting at the offsets walked by
    /// `block_start_index`.
    MultipleBlocks { block_start_index: StridedIndex<'a>, block_len: usize },
}

} // verus!
