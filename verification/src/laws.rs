//! Properties that relate the layout operations to one another.
use vstd::prelude::*;
use crate::layout::{
    broadcast_compatible, broadcast_stride, is_permutation, leading_zeros, permuted, swapped, trailing_zeros,
    LayoutView,
};
use crate::strided_index::{index_offset, next_multi_index, zeros};
use crate::model::{
    contiguous_stride_at, elem_offset, fortran_stride_at, is_c_contiguous, is_f_contiguous, lemma_c_contiguous_iff,
    lemma_chunk_offset, lemma_f_contiguous_iff, lemma_offset_split, lemma_pos_factors, lemma_prod_append,
    packed_between, packed_from, prod,
};
use vstd::arithmetic::div_mod::{
    lemma_div_pos_is_pos, lemma_fundamental_div_mod_converse, lemma_mod_pos_bound, lemma_multiply_divide_lt,
};
use vstd::arithmetic::mul::{lemma_mul_basics, lemma_mul_is_commutative, lemma_mul_is_distributive_add};

verus! {

/// Transposing the same two dimensions twice gives back the layout it started from.
pub proof fn lemma_transpose_twice(v: LayoutView, dim1: int, dim2: int)
    requires
        v.wf(),
        0 <= dim1 < v.dims.len(),
        0 <= dim2 < v.dims.len(),
    ensures
        swapped(swapped(v.dims, dim1, dim2), dim1, dim2) == v.dims,
        swapped(swapped(v.stride, dim1, dim2), dim1, dim2) == v.stride,
{
    assert(swapped(swapped(v.dims, dim1, dim2), dim1, dim2) =~= v.dims);
    assert(swapped(swapped(v.stride, dim1, dim2), dim1, dim2) =~= v.stride);
}

/// Permuting by the identity leaves a layout unchanged.
pub proof fn lemma_permute_identity(v: LayoutView, idxs: Seq<usize>)
    requires
        v.wf(),
        idxs.len() == v.dims.len(),
        forall|i: int| 0 <= i < idxs.len() ==> idxs[i] == i,
    ensures
        is_permutation(idxs, v.dims.len()),
        permuted(v.dims, idxs) == v.dims,
        permuted(v.stride, idxs) == v.stride,
{
    assert forall|i: int| 0 <= i < v.dims.len() implies #[trigger] idxs.contains(i as usize) by {
        assert(idxs[i] == i as usize);
    }
    assert(permuted(v.dims, idxs) =~= v.dims);
    assert(permuted(v.stride, idxs) =~= v.stride);
}

/// Permuting by `p` and then by an inverse `q` of `p` gives back the layout it started from.
pub proof fn lemma_permute_inverse(v: LayoutView, p: Seq<usize>, q: Seq<usize>)
    requires
        v.wf(),
        is_permutation(p, v.dims.len()),
        q.len() == v.dims.len(),
        forall|i: int| 0 <= i < q.len() ==> q[i] < p.len() && p[q[i] as int] == i,
    ensures
        is_permutation(q, v.dims.len()),
        permuted(permuted(v.dims, p), q) == v.dims,
        permuted(permuted(v.stride, p), q) == v.stride,
{
    let n = v.dims.len();
    assert forall|i: int| 0 <= i < n implies #[trigger] q.contains(i as usize) by {
        lemma_inverse_covers(p, q, n, i);
    }
    assert(permuted(permuted(v.dims, p), q) =~= v.dims);
    assert(permuted(permuted(v.stride, p), q) =~= v.stride);
}

/// If `p[q[k]] == k` for every `k < n`, with both of length `n`, then every `i < n`
/// occurs in `q`.
proof fn lemma_inverse_covers(p: Seq<usize>, q: Seq<usize>, n: nat, i: int)
    requires
        p.len() == n,
        q.len() == n,
        forall|k: int| 0 <= k < q.len() ==> q[k] < p.len() && p[q[k] as int] == k,
        0 <= i < n,
    ensures
        q.contains(i as usize),
{
    // q is injective: q[a] == q[b] implies a == p[q[a]] == p[q[b]] == b.
    let qi = q.map_values(|v: usize| v as int);
    assert forall|a: int, b: int| 0 <= a < qi.len() && 0 <= b < qi.len() && a != b implies qi[a] != qi[b] by {
        if qi[a] == qi[b] {
            assert(p[q[a] as int] == a);
            assert(p[q[b] as int] == b);
        }
    }
    qi.unique_seq_to_set();
    let range = vstd::set_lib::set_int_range(0, n as int);
    vstd::set_lib::lemma_int_range(0, n as int);
    assert(qi.to_set().subset_of(range));
    if !q.contains(i as usize) {
        assert(!qi.to_set().contains(i)) by {
            if qi.to_set().contains(i) {
                let k = choose|k: int| 0 <= k < qi.len() && qi[k] == i;
                assert(q[k] == i as usize);
            }
        }
        assert(qi.to_set().subset_of(range.remove(i)));
        vstd::set_lib::lemma_len_subset(qi.to_set(), range.remove(i));
    }
}

/// Broadcasting a layout to its own shape leaves its strides unchanged.
pub proof fn lemma_broadcast_to_own_shape(v: LayoutView)
    requires
        v.wf(),
    ensures
        broadcast_compatible(v.dims, v.dims),
        broadcast_stride(v.dims, v.stride, v.dims) == v.stride,
{
    assert(broadcast_stride(v.dims, v.stride, v.dims) =~= v.stride);
}

/// Narrowing a dimension to its full range leaves the layout unchanged.
pub proof fn lemma_narrow_full(v: LayoutView, dim: int)
    requires
        v.wf(),
        0 <= dim < v.dims.len(),
    ensures
        v.dims.update(dim, v.dims[dim]) == v.dims,
        v.start_offset + v.stride[dim] * 0 == v.start_offset,
{
    assert(v.dims.update(dim, v.dims[dim]) =~= v.dims);
}

/// The C-contiguous strides of a shape describe a C-contiguous layout, packed, whose
/// innermost stride is one: such a layout can be reshaped without copying to any shape
/// with as many elements.
pub proof fn lemma_contiguous_strides(dims: Seq<usize>, stride: Seq<usize>)
    requires
        stride.len() == dims.len(),
        forall|i: int| 0 <= i < dims.len() ==> stride[i] == #[trigger] contiguous_stride_at(dims, i),
    ensures
        is_c_contiguous(dims, stride),
        packed_from(dims, stride, 0),
        dims.len() > 0 ==> stride.last() == 1,
{
    let n = dims.len() as int;
    assert forall|j: int| 0 <= j < n implies #[trigger] stride[j] == prod(dims.subrange(j + 1, n)) by {
        assert(stride[j] == contiguous_stride_at(dims, j));
    }
    if n > 0 {
        assert(dims.subrange(n, n) =~= Seq::<usize>::empty());
        assert(stride[n - 1] == contiguous_stride_at(dims, n - 1));
    }
}

/// Reversing the order of the entries does not change a product.
pub proof fn lemma_prod_reverse(s: Seq<usize>)
    ensures
        prod(s.reverse()) == prod(s),
    decreases s.len(),
{
    if s.len() > 0 {
        let t = s.drop_last();
        lemma_prod_reverse(t);
        assert(s.reverse() =~= seq![s.last()] + t.reverse());
        lemma_prod_append(seq![s.last()], t.reverse());
        assert(seq![s.last()].drop_last() =~= Seq::<usize>::empty());
        assert(prod(Seq::<usize>::empty()) == 1);
        vstd::arithmetic::mul::lemma_mul_basics(s.last() as int);
        assert(prod(seq![s.last()]) == s.last() as nat);
        vstd::arithmetic::mul::lemma_mul_is_commutative(s.last() as int, prod(t) as int);
    }
}

/// A layout is C-contiguous exactly when the layout with its dimensions in reverse order
/// is Fortran-contiguous (a transposed matrix is column-major).
pub proof fn lemma_reverse_c_is_f(dims: Seq<usize>, stride: Seq<usize>)
    requires
        dims.len() == stride.len(),
    ensures
        is_c_contiguous(dims, stride) == is_f_contiguous(dims.reverse(), stride.reverse()),
{
    let n = dims.len() as int;
    let rd = dims.reverse();
    let rs = stride.reverse();
    assert forall|i: int| 0 <= i < n implies #[trigger] fortran_stride_at(rd, n - 1 - i) == contiguous_stride_at(
        dims,
        i,
    ) by {
        assert(rd.subrange(0, n - 1 - i) =~= dims.subrange(i + 1, n).reverse());
        lemma_prod_reverse(dims.subrange(i + 1, n));
    }
    if is_c_contiguous(dims, stride) {
        assert forall|k: int| 0 <= k < n && rd[k] > 1 implies rs[k] == #[trigger] fortran_stride_at(rd, k) by {
            let i = n - 1 - k;
            assert(fortran_stride_at(rd, n - 1 - i) == contiguous_stride_at(dims, i));
        }
    }
    if is_f_contiguous(rd, rs) {
        assert forall|i: int| 0 <= i < n && dims[i] > 1 implies stride[i] == #[trigger] contiguous_stride_at(
            dims,
            i,
        ) by {
            assert(rd[n - 1 - i] == dims[i]);
            assert(rs[n - 1 - i] == stride[i]);
            assert(fortran_stride_at(rd, n - 1 - i) == contiguous_stride_at(dims, i));
        }
    }
}

/// The row-major linear index of the element whose index along each dimension is `mi`.
pub open spec fn linear_index(mi: Seq<usize>, dims: Seq<usize>) -> int
    decreases mi.len(),
{
    if mi.len() == 0 || dims.len() == 0 {
        0
    } else {
        linear_index(mi.drop_last(), dims.drop_last()) * (dims.last() as int) + mi.last()
    }
}

/// A walk position with index `mi` (each index within its dimension) is at the storage
/// offset of the element with linear index `linear_index(mi, dims)`: the walk and the
/// layout's addressing agree.
pub proof fn lemma_walk_offset(dims: Seq<usize>, stride: Seq<usize>, mi: Seq<usize>)
    requires
        mi.len() == dims.len(),
        stride.len() == dims.len(),
        forall|i: int| 0 <= i < mi.len() ==> mi[i] < dims[i],
    ensures
        index_offset(mi, stride) == elem_offset(dims, stride, linear_index(mi, dims)),
    decreases mi.len(),
{
    if mi.len() > 0 {
        let dl = dims.last() as int;
        let ml = mi.last() as int;
        let lp = linear_index(mi.drop_last(), dims.drop_last());
        assert(ml < dl);
        lemma_walk_offset(dims.drop_last(), stride.drop_last(), mi.drop_last());
        lemma_linear_index_nonneg(mi.drop_last(), dims.drop_last());
        lemma_fundamental_div_mod_converse(lp * dl + ml, dl, lp, ml);
        lemma_mul_is_commutative(ml, stride.last() as int);
    }
}

proof fn lemma_linear_index_nonneg(mi: Seq<usize>, dims: Seq<usize>)
    ensures
        linear_index(mi, dims) >= 0,
    decreases mi.len(),
{
    if mi.len() > 0 && dims.len() > 0 {
        lemma_linear_index_nonneg(mi.drop_last(), dims.drop_last());
        vstd::arithmetic::mul::lemma_mul_nonnegative(
            linear_index(mi.drop_last(), dims.drop_last()),
            dims.last() as int,
        );
    }
}

/// Each step of a walk moves to the next linear index, and the walk ends exactly after
/// the last element.
pub proof fn lemma_walk_advances(dims: Seq<usize>, mi: Seq<usize>)
    requires
        mi.len() == dims.len(),
        forall|i: int| 0 <= i < mi.len() ==> mi[i] < dims[i],
    ensures
        next_multi_index(mi, dims) matches Some(m2) ==> linear_index(m2, dims) == linear_index(mi, dims) + 1,
        next_multi_index(mi, dims) is None ==> linear_index(mi, dims) + 1 == prod(dims),
    decreases mi.len(),
{
    if mi.len() > 0 {
        let dl = dims.last() as int;
        let ml = mi.last() as int;
        let mp = mi.drop_last();
        let dp = dims.drop_last();
        let lp = linear_index(mp, dp);
        lemma_walk_advances(dp, mp);
        if ml + 1 < dl {
            let m2 = mp.push((ml + 1) as usize);
            assert(m2.drop_last() =~= mp);
        } else {
            assert(ml == dl - 1);
            match next_multi_index(mp, dp) {
                Some(p) => {
                    let m2 = p.push(0usize);
                    assert(m2.drop_last() =~= p);
                    lemma_mul_is_distributive_add(dl, lp, 1);
                    lemma_mul_is_commutative(dl, lp);
                    lemma_mul_is_commutative(dl, lp + 1);
                    lemma_mul_basics(dl);
                },
                None => {
                    lemma_mul_is_distributive_add(dl, lp, 1);
                    lemma_mul_is_commutative(dl, lp);
                    lemma_mul_is_commutative(dl, lp + 1);
                    lemma_mul_basics(dl);
                    lemma_mul_is_commutative(prod(dp) as int, dl);
                },
            }
        }
    }
}

/// A walk starts at linear index zero.
pub proof fn lemma_walk_start(dims: Seq<usize>)
    ensures
        linear_index(zeros(dims.len() as int), dims) == 0,
    decreases dims.len(),
{
    if dims.len() > 0 {
        assert(zeros(dims.len() as int).drop_last() =~= zeros(dims.len() - 1));
        lemma_walk_start(dims.drop_last());
        lemma_mul_basics(dims.last() as int);
    }
}

/// The blocks of `strided_blocks` put end to end give the walk over the whole layout.
/// When the dimensions from `k` on are packed (`k` is the number of dimensions whose
/// starts are walked; zero for a single block), each block holds
/// `p = prod(dims[k..])` contiguous elements: element `y * p + z` of the whole walk
/// is element `z` of the block that starts at the `y`-th start of the walk over the
/// dimensions before `k`.
pub proof fn lemma_blocks_cover_walk(dims: Seq<usize>, stride: Seq<usize>, k: int, y: int, z: int)
    requires
        dims.len() == stride.len(),
        0 <= k <= dims.len(),
        packed_from(dims, stride, k),
        prod(dims) > 0,
        0 <= y < prod(dims.subrange(0, k)),
        0 <= z < prod(dims.subrange(k, dims.len() as int)),
    ensures
        prod(dims) == prod(dims.subrange(0, k)) * prod(dims.subrange(k, dims.len() as int)),
        elem_offset(dims, stride, y * prod(dims.subrange(k, dims.len() as int)) + z) == elem_offset(
            dims.subrange(0, k),
            stride.subrange(0, k),
            y,
        ) + z,
{
    let n = dims.len() as int;
    let da = dims.subrange(0, k);
    let sa = stride.subrange(0, k);
    let db = dims.subrange(k, n);
    let sb = stride.subrange(k, n);
    let p = prod(db) as int;
    assert(dims =~= da + db);
    assert(stride =~= sa + sb);
    lemma_prod_append(da, db);
    lemma_pos_factors(prod(da) as int, p);
    let x = y * p + z;
    vstd::arithmetic::mul::lemma_mul_nonnegative(y, p);
    lemma_offset_split(da, sa, db, sb, x);
    lemma_fundamental_div_mod_converse(x, p, y, z);
    // the packed inner dimensions form a chunk of base stride one
    assert forall|j: int| 0 <= j < db.len() implies db[j] == 1 || #[trigger] sb[j] == 1 * prod(
        db.subrange(j + 1, db.len() as int),
    ) by {
        assert(db.subrange(j + 1, db.len() as int) =~= dims.subrange(k + j + 1, n));
        assert(sb[j] == stride[k + j]);
        assert(stride[k + j] == prod(dims.subrange(k + j + 1, n)));
        lemma_mul_basics(prod(db.subrange(j + 1, db.len() as int)) as int);
    }
    lemma_chunk_offset(db, sb, 1, z);
    lemma_mul_basics(z);
}

/// Transposing dimensions `a` and `b` exchanges their sizes and strides and leaves every
/// other dimension as it was; which of the two is named first does not matter.
pub proof fn lemma_swapped_entries(s: Seq<usize>, a: int, b: int)
    requires
        0 <= a < s.len(),
        0 <= b < s.len(),
    ensures
        swapped(s, a, b).len() == s.len(),
        swapped(s, a, b)[a] == s[b],
        swapped(s, a, b)[b] == s[a],
        forall|k: int| 0 <= k < s.len() && k != a && k != b ==> #[trigger] swapped(s, a, b)[k] == s[k],
        swapped(s, a, b) == swapped(s, b, a),
{
    assert(swapped(s, a, b) =~= swapped(s, b, a));
}

/// Dimension `i` of a permuted layout is dimension `idxs[i]` of the original one, for
/// every list of indices within range.
pub proof fn lemma_permuted_entries(s: Seq<usize>, idxs: Seq<usize>)
    requires
        forall|i: int| 0 <= i < idxs.len() ==> idxs[i] < s.len(),
    ensures
        permuted(s, idxs).len() == idxs.len(),
        forall|i: int| 0 <= i < idxs.len() ==> #[trigger] permuted(s, idxs)[i] == s[idxs[i] as int],
{
}

/// The strides of a broadcast layout: dimensions added on the left and dimensions of size
/// one stretched to another size have stride zero; the others keep their stride.
pub proof fn lemma_broadcast_stride_entries(src: Seq<usize>, stride: Seq<usize>, dst: Seq<usize>)
    requires
        broadcast_compatible(src, dst),
        stride.len() == src.len(),
    ensures
        broadcast_stride(src, stride, dst).len() == dst.len(),
        forall|i: int| 0 <= i < dst.len() - src.len() ==> #[trigger] broadcast_stride(src, stride, dst)[i] == 0,
        forall|i: int| dst.len() - src.len() <= i < dst.len() && dst[i] == src[i - (dst.len() - src.len())]
            ==> #[trigger] broadcast_stride(src, stride, dst)[i] == stride[i - (dst.len() - src.len())],
        forall|i: int| dst.len() - src.len() <= i < dst.len() && dst[i] != src[i - (dst.len() - src.len())]
            ==> src[i - (dst.len() - src.len())] == 1 && #[trigger] broadcast_stride(src, stride, dst)[i] == 0,
{
    let added = dst.len() - src.len();
    assert forall|i: int| added <= i < dst.len() && dst[i] != src[i - added] implies src[i - added] == 1 by {
        assert(src[i - added] == dst[dst.len() - src.len() + (i - added)] || src[i - added] == 1);
    }
}

/// The index into the source of a broadcast: the dimensions added on the left are
/// dropped and the index along a dimension of size one is zero.
pub open spec fn broadcast_source_index(src: Seq<usize>, dst: Seq<usize>, mi: Seq<usize>) -> Seq<usize> {
    let added = dst.len() - src.len();
    Seq::new(src.len(), |j: int| if src[j] == 1 { 0usize } else { mi[added + j] })
}

/// At every index, a broadcast layout reads the element of the source whose index drops
/// the added dimensions and is zero along every stretched one: broadcasting repeats the
/// source, it does not read other storage.
pub proof fn lemma_broadcast_reads_source(src: Seq<usize>, stride: Seq<usize>, dst: Seq<usize>, mi: Seq<usize>)
    requires
        broadcast_compatible(src, dst),
        stride.len() == src.len(),
        mi.len() == dst.len(),
        forall|i: int| 0 <= i < mi.len() ==> mi[i] < dst[i],
    ensures
        index_offset(mi, broadcast_stride(src, stride, dst)) == index_offset(
            broadcast_source_index(src, dst, mi),
            stride,
        ),
    decreases dst.len(),
{
    let bs = broadcast_stride(src, stride, dst);
    let pi = broadcast_source_index(src, dst, mi);
    let added = dst.len() - src.len();
    if dst.len() == 0 {
        assert(pi.len() == 0);
    } else if src.len() == 0 {
        let dp = dst.drop_last();
        assert(bs.drop_last() =~= broadcast_stride(src, stride, dp));
        assert forall|j: int| 0 <= j < src.len() implies #[trigger] src[j] == dp[dp.len() - src.len() + j] || src[j]
            == 1 by {}
        lemma_broadcast_reads_source(src, stride, dp, mi.drop_last());
        assert(broadcast_source_index(src, dp, mi.drop_last()) =~= pi);
        assert(bs.last() == 0);
        vstd::arithmetic::mul::lemma_mul_basics(mi.last() as int);
    } else {
        let sp = src.drop_last();
        let tp = stride.drop_last();
        let dp = dst.drop_last();
        let mp = mi.drop_last();
        assert forall|j: int| 0 <= j < sp.len() implies #[trigger] sp[j] == dp[dp.len() - sp.len() + j] || sp[j]
            == 1 by {
            assert(src[j] == dst[dst.len() - src.len() + j] || src[j] == 1);
        }
        assert(bs.drop_last() =~= broadcast_stride(sp, tp, dp));
        assert(pi.drop_last() =~= broadcast_source_index(sp, dp, mp));
        lemma_broadcast_reads_source(sp, tp, dp, mp);
        let last = src.len() - 1;
        assert(src[last] == dst[dst.len() - src.len() + last] || src[last] == 1);
        assert(mi.last() < dst.last());
        if src.last() == dst.last() {
            assert(bs.last() == stride.last());
            if src.last() == 1 {
                assert(mi.last() == 0);
            }
            assert(pi.last() == mi.last());
        } else {
            assert(bs.last() == 0);
            assert(pi.last() == 0);
            vstd::arithmetic::mul::lemma_mul_basics(mi.last() as int);
            vstd::arithmetic::mul::lemma_mul_basics(stride.last() as int);
        }
    }
}

/// A dimension of size one (or zero) is never stepped along: its stride does not change
/// whether a layout is C- or Fortran-contiguous.
pub proof fn lemma_size_one_stride_free(dims: Seq<usize>, stride: Seq<usize>, i: int, v: usize)
    requires
        stride.len() == dims.len(),
        0 <= i < dims.len(),
        dims[i] <= 1,
    ensures
        is_c_contiguous(dims, stride.update(i, v)) == is_c_contiguous(dims, stride),
        is_f_contiguous(dims, stride.update(i, v)) == is_f_contiguous(dims, stride),
{
    let t = stride.update(i, v);
    lemma_c_contiguous_iff(dims, stride);
    lemma_c_contiguous_iff(dims, t);
    lemma_f_contiguous_iff(dims, stride);
    lemma_f_contiguous_iff(dims, t);
    assert forall|k: int| 0 <= k < dims.len() && dims[k] > 1 implies t[k] == stride[k] by {}
}

/// A C-contiguous layout stores the element with row-major linear index `x` at offset
/// `x` from its start.
pub proof fn lemma_c_contiguous_offset(dims: Seq<usize>, stride: Seq<usize>, x: int)
    requires
        is_c_contiguous(dims, stride),
        0 <= x < prod(dims),
    ensures
        elem_offset(dims, stride, x) == x,
{
    let n = dims.len() as int;
    lemma_c_contiguous_iff(dims, stride);
    assert forall|j: int| 0 <= j < n implies dims[j] == 1 || #[trigger] stride[j] == 1 * prod(
        dims.subrange(j + 1, n),
    ) by {
        lemma_mul_basics(prod(dims.subrange(j + 1, n)) as int);
        if dims[j] != 1 {
            if dims[j] == 0 {
                crate::model::lemma_prod_zero(dims);
            }
        }
    }
    lemma_chunk_offset(dims, stride, 1, x);
    lemma_mul_basics(x);
}

/// A layout whose leading and trailing strides are zero and whose strides between them
/// are packed (what `offsets_b` accepts) stores the element with linear index `x` at the
/// offset `(x / right) % len` from its start, where `right` is the number of elements of
/// the trailing broadcast dimensions and `len` that of the packed ones: the packed block
/// is read in order, each of its elements repeated `right` times, and the whole block
/// repeated for each index of the leading dimensions.
pub proof fn lemma_broadcast_block_offset(dims: Seq<usize>, stride: Seq<usize>, x: int)
    requires
        dims.len() == stride.len(),
        leading_zeros(stride) < dims.len(),
        packed_between(
            dims,
            stride,
            leading_zeros(stride) as int,
            dims.len() - trailing_zeros(stride),
        ),
        0 <= x < prod(dims),
    ensures
        ({
            let n = dims.len() as int;
            let a = leading_zeros(stride) as int;
            let e = n - trailing_zeros(stride);
            elem_offset(dims, stride, x) == (x / (prod(dims.subrange(e, n)) as int)) % (prod(
                dims.subrange(a, e),
            ) as int)
        }),
{
    let n = dims.len() as int;
    let a = leading_zeros(stride) as int;
    crate::layout::lemma_leading_zeros_prefix(stride);
    crate::layout::lemma_trailing_zeros_suffix(stride);
    let e = n - trailing_zeros(stride);
    assert(a < e) by {
        if e <= a {
            assert(stride[a] == 0);
        }
    }
    let dl = dims.subrange(0, a);
    let dm = dims.subrange(a, e);
    let dr = dims.subrange(e, n);
    let sl = stride.subrange(0, a);
    let sm = stride.subrange(a, e);
    let sr = stride.subrange(e, n);
    let l = prod(dl) as int;
    let m = prod(dm) as int;
    let r = prod(dr) as int;
    assert(dims =~= (dl + dm) + dr);
    assert(stride =~= (sl + sm) + sr);
    lemma_prod_append(dl + dm, dr);
    lemma_prod_append(dl, dm);
    lemma_pos_factors(l * m, r);
    lemma_pos_factors(l, m);
    // the trailing broadcast dimensions add nothing
    assert forall|j: int| 0 <= j < dr.len() implies dr[j] == 1 || #[trigger] sr[j] == 0 * prod(
        dr.subrange(j + 1, dr.len() as int),
    ) by {
        assert(sr[j] == stride[e + j]);
        lemma_mul_basics(prod(dr.subrange(j + 1, dr.len() as int)) as int);
    }
    lemma_offset_split(dl + dm, sl + sm, dr, sr, x);
    lemma_mod_pos_bound(x, r);
    lemma_chunk_offset(dr, sr, 0, x % r);
    lemma_mul_basics(x % r);
    // the remaining index addresses the leading and the packed dimensions
    let y = x / r;
    lemma_div_pos_is_pos(x, r);
    vstd::arithmetic::mul::lemma_mul_is_commutative(l * m, r);
    lemma_multiply_divide_lt(x, r, l * m);
    lemma_offset_split(dl, sl, dm, sm, y);
    lemma_mod_pos_bound(y, m);
    assert forall|j: int| 0 <= j < dm.len() implies dm[j] == 1 || #[trigger] sm[j] == 1 * prod(
        dm.subrange(j + 1, dm.len() as int),
    ) by {
        assert(sm[j] == stride[a + j]);
        assert(dm.subrange(j + 1, dm.len() as int) =~= dims.subrange(a + j + 1, e));
        lemma_mul_basics(prod(dm.subrange(j + 1, dm.len() as int)) as int);
    }
    lemma_chunk_offset(dm, sm, 1, y % m);
    lemma_mul_basics(y % m);
    // the leading broadcast dimensions add nothing
    lemma_div_pos_is_pos(y, m);
    vstd::arithmetic::mul::lemma_mul_is_commutative(l, m);
    lemma_multiply_divide_lt(y, m, l);
    assert forall|j: int| 0 <= j < dl.len() implies dl[j] == 1 || #[trigger] sl[j] == 0 * prod(
        dl.subrange(j + 1, dl.len() as int),
    ) by {
        assert(sl[j] == stride[j]);
        lemma_mul_basics(prod(dl.subrange(j + 1, dl.len() as int)) as int);
    }
    lemma_chunk_offset(dl, sl, 0, y / m);
    lemma_mul_basics(y / m);
}

} // verus!
