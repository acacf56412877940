//! Mathematical model of strided tensor layouts.
//!
//! A layout with dimensions `dims` and strides `stride` stores the element whose
//! row-major (C order) linear index is `x` at offset `start + elem_offset(dims, stride, x)`.
use vstd::prelude::*;
use vstd::arithmetic::div_mod::*;
use vstd::arithmetic::mul::*;
use vstd::set_lib::{lemma_int_range, lemma_len_subset, set_int_range};

verus! {

/// Number of elements spanned by the dimensions `s`: the product of its entries.
pub open spec fn prod(s: Seq<usize>) -> nat
    decreases s.len(),
{
    if s.len() == 0 {
        1
    } else {
        prod(s.drop_last()) * (s.last() as nat)
    }
}

/// Offset, relative to the start offset, of the element with row-major linear index `x`
/// in a layout with dimensions `dims` and strides `stride` (of the same length).
///
/// The innermost (last) dimension varies fastest: its index is `x % dims.last()`, and the
/// remaining dimensions are addressed by `x / dims.last()`.
pub open spec fn elem_offset(dims: Seq<usize>, stride: Seq<usize>, x: int) -> int
    decreases dims.len(),
{
    if dims.len() == 0 || stride.len() == 0 {
        0
    } else {
        let d = dims.last() as int;
        (x % d) * (stride.last() as int) + elem_offset(dims.drop_last(), stride.drop_last(), x / d)
    }
}

/// Two layouts (sharing a start offset) address the same storage elements in the same
/// row-major order: they have the same number of elements and every linear index is
/// mapped to the same offset.
pub open spec fn same_elements(d1: Seq<usize>, s1: Seq<usize>, d2: Seq<usize>, s2: Seq<usize>) -> bool {
    &&& prod(d1) == prod(d2)
    &&& forall|x: int| 0 <= x < prod(d1) ==> #[trigger] elem_offset(d1, s1, x) == elem_offset(d2, s2, x)
}

/// Stride of dimension `i` in the C-contiguous (row-major) layout of `dims`.
pub open spec fn contiguous_stride_at(dims: Seq<usize>, i: int) -> nat {
    prod(dims.subrange(i + 1, dims.len() as int))
}

/// Stride of dimension `i` in the Fortran-contiguous (column-major) layout of `dims`.
pub open spec fn fortran_stride_at(dims: Seq<usize>, i: int) -> nat {
    prod(dims.subrange(0, i))
}

/// Every product of a suffix of `dims` fits in a `usize`.
pub open spec fn suffix_products_fit(dims: Seq<usize>) -> bool {
    forall|i: int| 0 <= i <= dims.len() ==> #[trigger] prod(dims.subrange(i, dims.len() as int)) <= usize::MAX
}

/// Every product of a prefix of `dims` fits in a `usize`.
pub open spec fn prefix_products_fit(dims: Seq<usize>) -> bool {
    forall|i: int| 0 <= i <= dims.len() ==> #[trigger] prod(dims.subrange(0, i)) <= usize::MAX
}

/// Strides describe a C-contiguous layout: every dimension of size greater than one has
/// the row-major stride (dimensions of size zero or one are never stepped along).
pub open spec fn is_c_contiguous(dims: Seq<usize>, stride: Seq<usize>) -> bool {
    &&& dims.len() == stride.len()
    &&& forall|i: int| 0 <= i < dims.len() && dims[i] > 1 ==> stride[i] == #[trigger] contiguous_stride_at(dims, i)
}

/// Strides describe a Fortran-contiguous (column-major) layout.
pub open spec fn is_f_contiguous(dims: Seq<usize>, stride: Seq<usize>) -> bool {
    &&& dims.len() == stride.len()
    &&& forall|i: int| 0 <= i < dims.len() && dims[i] > 1 ==> stride[i] == #[trigger] fortran_stride_at(dims, i)
}

/// Between indices `lo` and `hi` the strides are exactly the row-major strides of the
/// dimensions `lo..hi`, size-one dimensions included.
pub open spec fn packed_between(dims: Seq<usize>, stride: Seq<usize>, lo: int, hi: int) -> bool {
    forall|j: int| lo <= j < hi ==> #[trigger] stride[j] == prod(dims.subrange(j + 1, hi))
}

/// From index `i` onwards every stride is exactly the row-major stride, size-one
/// dimensions included.
pub open spec fn packed_from(dims: Seq<usize>, stride: Seq<usize>, i: int) -> bool {
    packed_between(dims, stride, i, dims.len() as int)
}

/// A layout is C-contiguous exactly when it has one stride per dimension and every
/// dimension of size greater than one has as stride the product of the sizes of the
/// dimensions after it.
pub proof fn lemma_c_contiguous_iff(dims: Seq<usize>, stride: Seq<usize>)
    ensures
        is_c_contiguous(dims, stride) == (stride.len() == dims.len() && forall|i: int| 0 <= i < dims.len()
            && dims[i] > 1 ==> #[trigger] stride[i] == prod(dims.subrange(i + 1, dims.len() as int))),
{
    let n = dims.len() as int;
    if is_c_contiguous(dims, stride) {
        assert forall|i: int| 0 <= i < n && dims[i] > 1 implies #[trigger] stride[i] == prod(
            dims.subrange(i + 1, n),
        ) by {
            assert(stride[i] == contiguous_stride_at(dims, i));
        }
    }
    if stride.len() == dims.len() && forall|i: int| 0 <= i < n && dims[i] > 1 ==> #[trigger] stride[i] == prod(
        dims.subrange(i + 1, n),
    ) {
        assert forall|i: int| 0 <= i < n && dims[i] > 1 implies stride[i] == #[trigger] contiguous_stride_at(
            dims,
            i,
        ) by {
            assert(stride[i] == prod(dims.subrange(i + 1, n)));
        }
    }
}

/// A layout is Fortran-contiguous exactly when it has one stride per dimension and every
/// dimension of size greater than one has as stride the product of the sizes of the
/// dimensions before it.
pub proof fn lemma_f_contiguous_iff(dims: Seq<usize>, stride: Seq<usize>)
    ensures
        is_f_contiguous(dims, stride) == (stride.len() == dims.len() && forall|i: int| 0 <= i < dims.len()
            && dims[i] > 1 ==> #[trigger] stride[i] == prod(dims.subrange(0, i))),
{
    let n = dims.len() as int;
    if is_f_contiguous(dims, stride) {
        assert forall|i: int| 0 <= i < n && dims[i] > 1 implies #[trigger] stride[i] == prod(
            dims.subrange(0, i),
        ) by {
            assert(stride[i] == fortran_stride_at(dims, i));
        }
    }
    if stride.len() == dims.len() && forall|i: int| 0 <= i < n && dims[i] > 1 ==> #[trigger] stride[i] == prod(
        dims.subrange(0, i),
    ) {
        assert forall|i: int| 0 <= i < n && dims[i] > 1 implies stride[i] == #[trigger] fortran_stride_at(
            dims,
            i,
        ) by {
            assert(stride[i] == prod(dims.subrange(0, i)));
        }
    }
}

/// The strides between `lo` and `hi` are packed exactly when each of them is the product
/// of the sizes of the dimensions after it, up to `hi`.
pub proof fn lemma_packed_between_iff(dims: Seq<usize>, stride: Seq<usize>, lo: int, hi: int)
    ensures
        packed_between(dims, stride, lo, hi) == forall|j: int| lo <= j < hi ==> #[trigger] stride[j] == prod(
            dims.subrange(j + 1, hi),
        ),
{
}

pub proof fn lemma_prod_append(a: Seq<usize>, b: Seq<usize>)
    ensures
        prod(a + b) == prod(a) * prod(b),
    decreases b.len(),
{
    if b.len() == 0 {
        assert(a + b =~= a);
        lemma_mul_basics(prod(a) as int);
    } else {
        assert((a + b).drop_last() =~= a + b.drop_last());
        assert((a + b).last() == b.last());
        lemma_prod_append(a, b.drop_last());
        let pa = prod(a) as int;
        let pb = prod(b.drop_last()) as int;
        let l = b.last() as int;
        assert(prod(a + b) == (pa * pb) * l);
        assert(prod(b) == pb * l);
        lemma_mul_is_associative(pa, pb, l);
    }
}

pub proof fn lemma_prod_split(s: Seq<usize>, i: int, c: int, n: int)
    requires
        0 <= i <= c <= n <= s.len(),
    ensures
        prod(s.subrange(i, n)) == prod(s.subrange(i, c)) * prod(s.subrange(c, n)),
{
    assert(s.subrange(i, n) =~= s.subrange(i, c) + s.subrange(c, n));
    lemma_prod_append(s.subrange(i, c), s.subrange(c, n));
}

/// Extending a range of dimensions by one on the right multiplies its product by that size.
pub proof fn lemma_prod_extend_right(s: Seq<usize>, i: int, n: int)
    requires
        0 <= i <= n < s.len(),
    ensures
        prod(s.subrange(i, n + 1)) == prod(s.subrange(i, n)) * (s[n] as nat),
{
    assert(s.subrange(i, n + 1).drop_last() =~= s.subrange(i, n));
}

/// Extending a range of dimensions by one on the left multiplies its product by that size.
pub proof fn lemma_prod_extend_left(s: Seq<usize>, i: int, n: int)
    requires
        0 < i <= n <= s.len(),
    ensures
        prod(s.subrange(i - 1, n)) == (s[i - 1] as nat) * prod(s.subrange(i, n)),
{
    lemma_prod_split(s, i - 1, i, n);
    assert(s.subrange(i - 1, i).drop_last() =~= Seq::<usize>::empty());
    assert(s.subrange(i - 1, i).last() == s[i - 1]);
    assert(prod(Seq::<usize>::empty()) == 1);
    lemma_mul_basics(s[i - 1] as int);
    assert(prod(s.subrange(i - 1, i)) == s[i - 1] as nat);
    lemma_mul_is_commutative(s[i - 1] as int, prod(s.subrange(i, n)) as int);
}

/// A positive product has positive factors.
pub proof fn lemma_pos_factors(a: int, b: int)
    requires
        a >= 0,
        b >= 0,
        a * b > 0,
    ensures
        a > 0,
        b > 0,
{
    if a == 0 {
        lemma_mul_by_zero_is_zero(b);
    }
    if b == 0 {
        lemma_mul_by_zero_is_zero(a);
    }
}

/// Digit extraction in a mixed radix system with an inner radix `l` and an outer radix `p`.
pub proof fn lemma_mixed_radix(x: int, l: int, p: int)
    requires
        x >= 0,
        l > 0,
        p > 0,
    ensures
        (x % (p * l)) % l == x % l,
        (x % (p * l)) / l == (x / l) % p,
        x / (p * l) == (x / l) / p,
{
    lemma_mul_is_commutative(p, l);
    lemma_mod_breakdown(x, l, p);
    lemma_mod_pos_bound(x, l);
    lemma_mod_pos_bound(x / l, p);
    lemma_div_pos_is_pos(x, l);
    lemma_mul_is_commutative(l, (x / l) % p);
    lemma_fundamental_div_mod_converse(x % (l * p), l, (x / l) % p, x % l);
    lemma_div_denominator(x, l, p);
}

/// Splitting a layout into an outer part `a` and an inner part `b`: the inner part is
/// addressed by the remainder and the outer part by the quotient of the linear index by
/// the number of inner elements.
pub proof fn lemma_offset_split(da: Seq<usize>, sa: Seq<usize>, db: Seq<usize>, sb: Seq<usize>, x: int)
    requires
        da.len() == sa.len(),
        db.len() == sb.len(),
        prod(db) > 0,
        x >= 0,
    ensures
        elem_offset(da + db, sa + sb, x) == elem_offset(db, sb, x % (prod(db) as int))
            + elem_offset(da, sa, x / (prod(db) as int)),
    decreases db.len(),
{
    if db.len() == 0 {
        assert(da + db =~= da);
        assert(sa + sb =~= sa);
    } else {
        let l = db.last() as int;
        let pp = prod(db.drop_last()) as int;
        lemma_pos_factors(pp, l);
        assert((da + db).drop_last() =~= da + db.drop_last());
        assert((sa + sb).drop_last() =~= sa + sb.drop_last());
        assert((da + db).last() == db.last());
        assert((sa + sb).last() == sb.last());
        lemma_div_pos_is_pos(x, l);
        let sl = sb.last() as int;
        let p = pp * l;
        assert(prod(db) == p);
        assert(elem_offset(da + db, sa + sb, x) == (x % l) * sl + elem_offset(
            da + db.drop_last(),
            sa + sb.drop_last(),
            x / l,
        ));
        lemma_offset_split(da, sa, db.drop_last(), sb.drop_last(), x / l);
        assert(elem_offset(db, sb, x % p) == ((x % p) % l) * sl + elem_offset(
            db.drop_last(),
            sb.drop_last(),
            (x % p) / l,
        ));
        lemma_mixed_radix(x, l, pp);
    }
}

/// A chunk of dimensions whose strides are those of a row-major layout scaled by `beta`
/// (ignoring dimensions of size one) maps linear index `x` to offset `beta * x`.
pub proof fn lemma_chunk_offset(d: Seq<usize>, s: Seq<usize>, beta: int, x: int)
    requires
        d.len() == s.len(),
        forall|j: int| 0 <= j < d.len() ==> d[j] == 1
            || #[trigger] s[j] == beta * prod(d.subrange(j + 1, d.len() as int)),
        0 <= x < prod(d),
    ensures
        elem_offset(d, s, x) == beta * x,
    decreases d.len(),
{
    if d.len() == 0 {
    } else {
        let n = d.len() as int;
        let l = d.last() as int;
        let dp = d.drop_last();
        let sp = s.drop_last();
        let pp = prod(dp) as int;
        lemma_pos_factors(pp, l);
        // the innermost term
        assert(d.subrange(n, n) =~= Seq::<usize>::empty());
        assert((x % l) * (s.last() as int) == beta * (x % l)) by {
            lemma_mul_is_commutative(x % l, beta);
            if l == 1 {
                lemma_mod_self_0(1);
                assert(x % 1 == 0);
                lemma_mul_basics(beta);
                lemma_mul_basics(s.last() as int);
            } else {
                assert(prod(Seq::<usize>::empty()) == 1);
                assert(d.subrange(n - 1 + 1, n) =~= Seq::<usize>::empty());
                assert(s[n - 1] == beta * prod(d.subrange(n - 1 + 1, n)));
                assert(s.last() == s[n - 1]);
                lemma_mul_basics(beta);
            }
            lemma_mul_is_commutative(x % l, beta);
        }
        // the outer dimensions form a chunk scaled by `beta * l`
        assert forall|j: int| 0 <= j < dp.len() implies dp[j] == 1
            || #[trigger] sp[j] == (beta * l) * prod(dp.subrange(j + 1, dp.len() as int)) by {
            lemma_prod_extend_right(d, j + 1, n - 1);
            assert(d.subrange(j + 1, n - 1) =~= dp.subrange(j + 1, dp.len() as int));
            if d[j] != 1 {
                assert(s[j] == beta * prod(d.subrange(j + 1, n)));
                lemma_mul_is_associative(beta, prod(dp.subrange(j + 1, dp.len() as int)) as int, l);
                lemma_mul_is_commutative(prod(dp.subrange(j + 1, dp.len() as int)) as int, l);
                lemma_mul_is_associative(beta, l, prod(dp.subrange(j + 1, dp.len() as int)) as int);
            }
        }
        lemma_div_pos_is_pos(x, l);
        assert(x / l < pp) by {
            lemma_fundamental_div_mod(x, l);
            lemma_mod_pos_bound(x, l);
            lemma_mul_is_commutative(pp, l);
            if x / l >= pp {
                lemma_mul_inequality(pp, x / l, l);
                lemma_mul_is_commutative(x / l, l);
            }
        }
        lemma_chunk_offset(dp, sp, beta * l, x / l);
        assert(beta * (x % l) + (beta * l) * (x / l) == beta * x) by {
            lemma_fundamental_div_mod(x, l);
            lemma_mul_is_associative(beta, l, x / l);
            lemma_mul_is_distributive_add(beta, l * (x / l), x % l);
        }
    }
}

/// A sequence of length `n` that contains each of `0..n` contains nothing else.
pub proof fn lemma_perm_in_range(p: Seq<usize>, n: nat)
    requires
        p.len() == n,
        forall|i: int| 0 <= i < n ==> #[trigger] p.contains(i as usize),
    ensures
        forall|j: int| 0 <= j < n ==> p[j] < n,
{
    assert forall|j: int| 0 <= j < n implies p[j] < n by {
        if p[j] >= n {
            let q = p.map_values(|v: usize| v as int);
            let range = set_int_range(0, n as int);
            let big = range.insert(p[j] as int);
            lemma_int_range(0, n as int);
            assert(big.len() == n + 1);
            assert forall|v: int| big.contains(v) implies #[trigger] q.to_set().contains(v) by {
                if v == p[j] as int {
                    assert(q[j] == v);
                } else {
                    assert(p.contains(v as usize));
                    let k = choose|k: int| 0 <= k < p.len() && p[k] == v as usize;
                    assert(q[k] == v);
                }
            }
            q.lemma_cardinality_of_set();
            lemma_len_subset(big, q.to_set());
        }
    }
}

/// The strides `s` of dimensions `d` are the row-major strides scaled by `beta`, except
/// possibly for dimensions of size one (whose stride never matters).
pub open spec fn chunk_scaled(d: Seq<usize>, s: Seq<usize>, beta: int) -> bool {
    &&& d.len() == s.len()
    &&& forall|j: int| 0 <= j < d.len() ==> d[j] == 1
        || #[trigger] s[j] == beta * prod(d.subrange(j + 1, d.len() as int))
}

/// Two equivalent layouts stay equivalent when each is extended on the left by a chunk of
/// the same size and the same scaled row-major strides.
pub proof fn lemma_join_chunk(
    da: Seq<usize>,
    sa: Seq<usize>,
    ea: Seq<usize>,
    ta: Seq<usize>,
    db: Seq<usize>,
    sb: Seq<usize>,
    eb: Seq<usize>,
    tb: Seq<usize>,
    beta: int,
)
    requires
        chunk_scaled(da, sa, beta),
        chunk_scaled(ea, ta, beta),
        prod(da) == prod(ea),
        db.len() == sb.len(),
        eb.len() == tb.len(),
        same_elements(db, sb, eb, tb),
    ensures
        same_elements(da + db, sa + sb, ea + eb, ta + tb),
{
    let p = prod(db) as int;
    lemma_prod_append(da, db);
    lemma_prod_append(ea, eb);
    if p == 0 {
        lemma_mul_basics(prod(da) as int);
    } else {
        assert forall|x: int| 0 <= x < prod(da + db) implies #[trigger] elem_offset(da + db, sa + sb, x)
            == elem_offset(ea + eb, ta + tb, x) by {
            lemma_offset_split(da, sa, db, sb, x);
            lemma_offset_split(ea, ta, eb, tb, x);
            lemma_mod_pos_bound(x, p);
            lemma_div_pos_is_pos(x, p);
            assert(x / p < prod(da)) by {
                lemma_fundamental_div_mod(x, p);
                lemma_mul_is_commutative(prod(da) as int, p);
                if x / p >= prod(da) {
                    lemma_mul_inequality(prod(da) as int, x / p, p);
                    lemma_mul_is_commutative(x / p, p);
                }
            }
            assert(elem_offset(db, sb, x % p) == elem_offset(eb, tb, x % p));
            lemma_chunk_offset(da, sa, beta, x / p);
            lemma_chunk_offset(ea, ta, beta, x / p);
        }
    }
}

/// A product of dimensions is zero exactly when one of them is.
pub proof fn lemma_prod_zero(s: Seq<usize>)
    ensures
        (prod(s) == 0) == (exists|j: int| 0 <= j < s.len() && s[j] == 0),
    decreases s.len(),
{
    if s.len() > 0 {
        let sp = s.drop_last();
        lemma_prod_zero(sp);
        let a = prod(sp) as int;
        let b = s.last() as int;
        if a == 0 || b == 0 {
            lemma_mul_basics(a);
            lemma_mul_basics(b);
            if a == 0 {
                let j = choose|j: int| 0 <= j < sp.len() && sp[j] == 0;
                assert(s[j] == 0);
            } else {
                assert(s[s.len() - 1] == 0);
            }
        } else {
            lemma_mul_strictly_positive(a, b);
            assert forall|j: int| 0 <= j < s.len() implies s[j] != 0 by {
                if j < s.len() - 1 {
                    assert(sp[j] == s[j]);
                }
            }
        }
    }
}

/// Wherever the strides between `i` and `hi` are packed, the product of the dimensions
/// `i..hi` fits in a `usize`.
pub open spec fn packed_products_fit_between(dims: Seq<usize>, stride: Seq<usize>, lo: int, hi: int) -> bool {
    forall|i: int| lo <= i <= hi && #[trigger] packed_between(dims, stride, i, hi) ==> prod(
        dims.subrange(i, hi),
    ) <= usize::MAX
}

/// Wherever the strides are packed from index `i` on, the product of the dimensions
/// from `i` on fits in a `usize`.
pub open spec fn packed_products_fit(dims: Seq<usize>, stride: Seq<usize>) -> bool {
    packed_products_fit_between(dims, stride, 0, dims.len() as int)
}

/// When all dimensions are positive, any range of them spans at least one and at most
/// all of the elements.
pub proof fn lemma_sub_prod_le(s: Seq<usize>, i: int, j: int)
    requires
        0 <= i <= j <= s.len(),
        prod(s) > 0,
    ensures
        0 < prod(s.subrange(i, j)) <= prod(s),
{
    let n = s.len() as int;
    lemma_prod_split(s, 0, i, n);
    lemma_prod_split(s, i, j, n);
    assert(s.subrange(0, n) =~= s);
    let a = prod(s.subrange(0, i)) as int;
    let b = prod(s.subrange(i, j)) as int;
    let c = prod(s.subrange(j, n)) as int;
    lemma_mul_is_associative(a, b, c);
    lemma_pos_factors(a, b * c);
    lemma_pos_factors(b, c);
    lemma_mul_inequality(1, a, b * c);
    lemma_mul_inequality(1, c, b);
    lemma_mul_is_commutative(c, b);
    lemma_mul_basics(b * c);
    lemma_mul_basics(b);
}

/// The first element is at offset zero.
pub proof fn lemma_offset_zero(d: Seq<usize>, s: Seq<usize>)
    requires
        prod(d) > 0,
    ensures
        elem_offset(d, s, 0) == 0,
    decreases d.len(),
{
    if d.len() > 0 && s.len() > 0 {
        let l = d.last() as int;
        lemma_pos_factors(prod(d.drop_last()) as int, l);
        lemma_small_mod(0, l as nat);
        lemma_basic_div(0, l);
        lemma_offset_zero(d.drop_last(), s.drop_last());
        lemma_mul_basics(s.last() as int);
    }
}

/// Among the suffix products of positive dimensions, growing from one at the right end
/// to more than `p` at the left end, one is `p` or a step crosses strictly over `p`.
proof fn lemma_suffix_crossing(e: Seq<usize>, p: int, j: int) -> (k: int)
    requires
        0 <= j <= e.len(),
        prod(e.subrange(j, e.len() as int)) < p,
        prod(e) > p,
        forall|q: int| 0 <= q <= e.len() ==> prod(#[trigger] e.subrange(q, e.len() as int)) != p,
    ensures
        0 <= k < j,
        prod(e.subrange(k + 1, e.len() as int)) < p < prod(e.subrange(k, e.len() as int)),
    decreases j,
{
    let m = e.len() as int;
    if j == 0 {
        assert(e.subrange(0, m) =~= e);
        assert(false);
        0
    } else if prod(e.subrange(j - 1, m)) > p {
        j - 1
    } else {
        assert(prod(e.subrange(j - 1, m)) != p);
        lemma_suffix_crossing(e, p, j - 1)
    }
}

/// A row of positive dimensions is divided, on the right, into a chunk with scaled
/// row-major strides and the rest; if the rest does not continue that chunk contiguously,
/// every layout addressing the same elements has a suffix of dimensions spanning exactly
/// the chunk.
pub proof fn lemma_chunk_alignment(d: Seq<usize>, s: Seq<usize>, e: Seq<usize>, t: Seq<usize>, c: int, beta: int)
    requires
        d.len() == s.len(),
        e.len() == t.len(),
        0 <= c <= d.len(),
        prod(d) > 0,
        chunk_scaled(d.subrange(c, d.len() as int), s.subrange(c, d.len() as int), beta),
        c > 0 ==> d[c - 1] != 1 && s[c - 1] != beta * prod(d.subrange(c, d.len() as int)),
        same_elements(d, s, e, t),
    ensures
        exists|q: int| 0 <= q <= e.len() && prod(#[trigger] e.subrange(q, e.len() as int)) == prod(
            d.subrange(c, d.len() as int),
        ),
{
    let n = d.len() as int;
    let m = e.len() as int;
    let p = prod(d.subrange(c, n)) as int;
    if c == 0 {
        assert(d.subrange(0, n) =~= d);
        assert(e.subrange(0, m) =~= e);
    } else if !(exists|q: int| 0 <= q <= m && prod(#[trigger] e.subrange(q, m)) == p) {
        let big_n = prod(d) as int;
        // the whole layout spans at least twice the chunk
        let dl = d.subrange(0, c);
        let sl = s.subrange(0, c);
        let dc = d.subrange(c, n);
        let sc = s.subrange(c, n);
        assert(d =~= dl + dc);
        assert(s =~= sl + sc);
        lemma_prod_append(dl, dc);
        lemma_pos_factors(prod(dl) as int, p);
        lemma_sub_prod_le(d, c - 1, c);
        lemma_prod_extend_left(d, c, c);
        assert(d.subrange(c, c) =~= Seq::<usize>::empty());
        lemma_mul_basics(d[c - 1] as int);
        assert(d[c - 1] >= 2);
        lemma_sub_prod_le(d, 0, c);
        lemma_prod_extend_right(d, 0, c - 1);
        lemma_sub_prod_le(d, 0, c - 1);
        lemma_mul_inequality(1, prod(d.subrange(0, c - 1)) as int, d[c - 1] as int);
        lemma_mul_is_commutative(1, d[c - 1] as int);
        assert(prod(dl) >= 2);
        lemma_mul_inequality(2, prod(dl) as int, p);
        assert(big_n >= 2 * p);
        // find the new dimension whose span crosses over the chunk
        assert(e.subrange(m, m) =~= Seq::<usize>::empty());
        assert(p != 1) by {
            if p == 1 {
                assert(prod(e.subrange(m, m)) == p);
            }
        }
        let k = lemma_suffix_crossing(e, p, m);
        let ea = e.subrange(0, k + 1);
        let ta = t.subrange(0, k + 1);
        let eb = e.subrange(k + 1, m);
        let tb = t.subrange(k + 1, m);
        assert(e =~= ea + eb);
        assert(t =~= ta + tb);
        let a = prod(eb) as int;
        let ek = e[k] as int;
        lemma_prod_extend_left(e, k + 1, m);
        let b = prod(e.subrange(k, m)) as int;
        assert(b == ek * a);
        lemma_sub_prod_le(e, k + 1, m);
        assert(a > 0);
        assert(ek >= 2) by {
            if ek <= 1 {
                lemma_mul_inequality(ek, 1, a);
                lemma_mul_basics(a);
            }
        }
        // offsets in the new layout below `b`: `off(eb, x % a) + (x / a) * t[k]`
        assert(ea.drop_last() =~= e.subrange(0, k));
        lemma_sub_prod_le(e, 0, k);
        assert forall|x: int| 0 <= x < b implies #[trigger] elem_offset(e, t, x) == elem_offset(eb, tb, x % a)
            + (x / a) * (t[k] as int) by {
            lemma_offset_split(ea, ta, eb, tb, x);
            lemma_div_pos_is_pos(x, a);
            assert(x / a < ek) by {
                lemma_fundamental_div_mod(x, a);
                lemma_mod_pos_bound(x, a);
                if x / a >= ek {
                    lemma_mul_inequality(ek, x / a, a);
                    lemma_mul_is_commutative(x / a, a);
                }
            }
            lemma_small_mod((x / a) as nat, ek as nat);
            lemma_basic_div(x / a, ek);
            assert(ea.last() == e[k]);
            assert(ta.last() == t[k]);
            lemma_offset_zero(ea.drop_last(), ta.drop_last());
        }
        // offsets in the old layout below twice the chunk
        assert forall|x: int| 0 <= x < p implies #[trigger] elem_offset(d, s, x) == beta * x by {
            lemma_offset_split(dl, sl, dc, sc, x);
            lemma_small_mod(x as nat, p as nat);
            lemma_basic_div(x, p);
            lemma_offset_zero(dl, sl);
            lemma_chunk_offset(dc, sc, beta, x);
        }
        assert(elem_offset(d, s, p) == s[c - 1]) by {
            lemma_offset_split(dl, sl, dc, sc, p);
            lemma_mod_self_0(p);
            lemma_div_by_self(p);
            lemma_offset_zero(dc, sc);
            lemma_small_mod(1, d[c - 1] as nat);
            lemma_basic_div(1, d[c - 1] as int);
            assert(dl.last() == d[c - 1]);
            assert(sl.last() == s[c - 1]);
            lemma_offset_zero(dl.drop_last(), sl.drop_last());
            lemma_mul_basics(s[c - 1] as int);
        }
        // the step along dimension `k` of the new layout
        assert(elem_offset(e, t, a) == t[k]) by {
            lemma_mod_self_0(a);
            lemma_div_by_self(a);
            lemma_offset_zero(eb, tb);
            lemma_mul_basics(t[k] as int);
        }
        assert(elem_offset(d, s, a) == beta * a);
        assert(elem_offset(d, s, a) == elem_offset(e, t, a));
        assert(t[k] == beta * a);
        let r = p % a;
        lemma_mod_pos_bound(p, a);
        assert(elem_offset(e, t, r) == elem_offset(eb, tb, r)) by {
            lemma_small_mod(r as nat, a as nat);
            lemma_basic_div(r, a);
            lemma_mul_basics(t[k] as int);
        }
        assert(elem_offset(d, s, r) == beta * r);
        assert(elem_offset(d, s, r) == elem_offset(e, t, r));
        assert(elem_offset(eb, tb, r) == beta * r);
        assert(elem_offset(d, s, p) == elem_offset(e, t, p));
        assert(elem_offset(e, t, p) == beta * r + (p / a) * (beta * a));
        assert(beta * r + (p / a) * (beta * a) == beta * p) by {
            lemma_fundamental_div_mod(p, a);
            lemma_mul_is_associative(p / a, beta, a);
            lemma_mul_is_commutative(p / a, beta);
            lemma_mul_is_associative(beta, p / a, a);
            lemma_mul_is_commutative(p / a, a);
            lemma_mul_is_distributive_add(beta, a * (p / a), r);
        }
        assert(s[c - 1] == beta * p);
        assert(false);
    }
}

/// Two layouts addressing the same elements, split into an outer and an inner part of the
/// same size, have outer parts that address the same elements.
pub proof fn lemma_outer_equiv(
    da: Seq<usize>,
    sa: Seq<usize>,
    db: Seq<usize>,
    sb: Seq<usize>,
    ea: Seq<usize>,
    ta: Seq<usize>,
    eb: Seq<usize>,
    tb: Seq<usize>,
)
    requires
        da.len() == sa.len(),
        db.len() == sb.len(),
        ea.len() == ta.len(),
        eb.len() == tb.len(),
        prod(db) == prod(eb),
        prod(db) > 0,
        same_elements(da + db, sa + sb, ea + eb, ta + tb),
    ensures
        same_elements(da, sa, ea, ta),
{
    let p = prod(db) as int;
    lemma_prod_append(da, db);
    lemma_prod_append(ea, eb);
    lemma_mul_is_commutative(prod(da) as int, p);
    lemma_mul_is_commutative(prod(ea) as int, p);
    lemma_mul_equality_converse(p, prod(da) as int, prod(ea) as int);
    assert forall|x: int| 0 <= x < prod(da) implies #[trigger] elem_offset(da, sa, x) == elem_offset(ea, ta, x) by {
        let big_x = x * p;
        lemma_mul_nonnegative(x, p);
        lemma_mul_strict_inequality(x, prod(da) as int, p);
        lemma_offset_split(da, sa, db, sb, big_x);
        lemma_offset_split(ea, ta, eb, tb, big_x);
        lemma_mod_multiples_basic(x, p);
        lemma_div_multiples_vanish(x, p);
        lemma_offset_zero(db, sb);
        lemma_offset_zero(eb, tb);
    }
}

/// Over positive dimensions, a suffix product grows as the suffix is extended leftwards.
pub proof fn lemma_suffix_prod_mono(e: Seq<usize>, lo: int, i: int, j: int, hi: int)
    requires
        0 <= lo <= i <= j <= hi <= e.len(),
        prod(e.subrange(lo, hi)) > 0,
    ensures
        0 < prod(e.subrange(j, hi)) <= prod(e.subrange(i, hi)) <= prod(e.subrange(lo, hi)),
{
    let f = e.subrange(lo, hi);
    assert(f.subrange(i - lo, j - lo) =~= e.subrange(i, j));
    assert(f.subrange(j - lo, hi - lo) =~= e.subrange(j, hi));
    assert(f.subrange(i - lo, hi - lo) =~= e.subrange(i, hi));
    lemma_sub_prod_le(f, i - lo, j - lo);
    lemma_sub_prod_le(f, j - lo, hi - lo);
    lemma_sub_prod_le(f, i - lo, hi - lo);
    lemma_prod_split(e, i, j, hi);
    lemma_mul_inequality(1, prod(e.subrange(i, j)) as int, prod(e.subrange(j, hi)) as int);
    lemma_mul_basics(prod(e.subrange(j, hi)) as int);
}

} // verus!
