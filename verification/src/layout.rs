//! Tensor layouts: a shape, one stride per dimension (counted in elements, not bytes) and
//! the offset of the first element in the underlying storage.
use vstd::prelude::*;
use vstd::arithmetic::mul::{lemma_mul_basics, lemma_mul_inequality, lemma_mul_is_commutative};
use crate::error::Error;
use crate::model::{
    contiguous_stride_at, is_c_contiguous, is_f_contiguous, lemma_chunk_alignment, lemma_join_chunk,
    lemma_outer_equiv, lemma_perm_in_range, lemma_pos_factors, lemma_prod_extend_left, lemma_prod_extend_right,
    lemma_prod_split, lemma_prod_zero, lemma_sub_prod_le, lemma_suffix_prod_mono, packed_between, packed_from,
    packed_products_fit, packed_products_fit_between, prefix_products_fit, prod, same_elements,
    suffix_products_fit,
};
use crate::shape::Shape;
use crate::strided_index::{StridedBlocks, StridedIndex};

verus! {

/// The mathematical content of a layout.
pub struct LayoutView {
    pub dims: Seq<usize>,
    pub stride: Seq<usize>,
    pub start_offset: usize,
}

impl LayoutView {
    /// One stride per dimension.
    pub open spec fn wf(self) -> bool {
        self.dims.len() == self.stride.len()
    }
}

/// `s` with the entries at `a` and `b` exchanged.
pub open spec fn swapped(s: Seq<usize>, a: int, b: int) -> Seq<usize> {
    s.update(a, s[b]).update(b, s[a])
}

/// `s` reordered so that entry `i` of the result is entry `idxs[i]` of `s`.
pub open spec fn permuted(s: Seq<usize>, idxs: Seq<usize>) -> Seq<usize> {
    Seq::new(idxs.len(), |i: int| s[idxs[i] as int])
}

/// `idxs` lists each of the dimensions `0..n` (and, having length `n`, nothing else).
pub open spec fn is_permutation(idxs: Seq<usize>, n: nat) -> bool {
    &&& idxs.len() == n
    &&& forall|i: int| 0 <= i < n ==> #[trigger] idxs.contains(i as usize)
}

/// `src` can be broadcast to `dst`: `dst` has at least as many dimensions, and aligned on
/// the right, each dimension of `src` equals that of `dst` or is one.
pub open spec fn broadcast_compatible(src: Seq<usize>, dst: Seq<usize>) -> bool {
    &&& src.len() <= dst.len()
    &&& forall|j: int| 0 <= j < src.len() ==> #[trigger] src[j] == dst[dst.len() - src.len() + j] || src[j] == 1
}

/// Strides of `src` (with strides `stride`) broadcast to `dst`: added and stretched
/// dimensions get stride zero, the others keep theirs.
pub open spec fn broadcast_stride(src: Seq<usize>, stride: Seq<usize>, dst: Seq<usize>) -> Seq<usize> {
    let added = dst.len() - src.len();
    Seq::new(dst.len(), |i: int|
        if i < added {
            0usize
        } else if dst[i] == src[i - added] {
            stride[i - added]
        } else {
            0usize
        })
}

/// Number of leading zero entries of `s`.
pub open spec fn leading_zeros(s: Seq<usize>) -> nat
    decreases s.len(),
{
    if s.len() == 0 || s[0] != 0 {
        0
    } else {
        1 + leading_zeros(s.drop_first())
    }
}

/// Number of trailing zero entries of `s`.
pub open spec fn trailing_zeros(s: Seq<usize>) -> nat
    decreases s.len(),
{
    if s.len() == 0 || s.last() != 0 {
        0
    } else {
        1 + trailing_zeros(s.drop_last())
    }
}

/// `a` is the number of leading zeros of `s` when the entries before it are zero and the
/// entry at it (if any) is not.
pub proof fn lemma_leading_zeros(s: Seq<usize>, a: int)
    requires
        0 <= a <= s.len(),
        forall|j: int| 0 <= j < a ==> s[j] == 0,
        a == s.len() || s[a] != 0,
    ensures
        leading_zeros(s) == a,
    decreases a,
{
    if a > 0 {
        let t = s.drop_first();
        assert forall|j: int| 0 <= j < a - 1 implies t[j] == 0 by {
            assert(t[j] == s[j + 1]);
        }
        if a < s.len() {
            assert(t[a - 1] == s[a]);
        }
        lemma_leading_zeros(t, a - 1);
    }
}

/// `b` is the number of trailing zeros of `s` when the last `b` entries are zero and the
/// one before them (if any) is not.
pub proof fn lemma_trailing_zeros(s: Seq<usize>, b: int)
    requires
        0 <= b <= s.len(),
        forall|j: int| s.len() - b <= j < s.len() ==> s[j] == 0,
        b == s.len() || s[s.len() - b - 1] != 0,
    ensures
        trailing_zeros(s) == b,
    decreases b,
{
    if b > 0 {
        let t = s.drop_last();
        assert forall|j: int| t.len() - (b - 1) <= j < t.len() implies t[j] == 0 by {
            assert(t[j] == s[j]);
        }
        if b < s.len() {
            assert(t[t.len() - (b - 1) - 1] == s[s.len() - b - 1]);
        }
        lemma_trailing_zeros(t, b - 1);
    }
}

/// The first `k` entries of `s` are zero: it has at least `k` leading zeros.
pub proof fn lemma_leading_zeros_at_least(s: Seq<usize>, k: int)
    requires
        0 <= k <= s.len(),
        forall|j: int| 0 <= j < k ==> s[j] == 0,
    ensures
        leading_zeros(s) >= k,
        leading_zeros(s) <= s.len(),
    decreases s.len(),
{
    if s.len() > 0 && s[0] == 0 {
        let t = s.drop_first();
        assert forall|j: int| 0 <= j < k - 1 implies t[j] == 0 by {
            assert(t[j] == s[j + 1]);
        }
        if k > 0 {
            lemma_leading_zeros_at_least(t, k - 1);
        } else {
            lemma_leading_zeros_at_least(t, 0);
        }
    }
}

/// The last `k` entries of `s` are zero: it has at least `k` trailing zeros.
pub proof fn lemma_trailing_zeros_at_least(s: Seq<usize>, k: int)
    requires
        0 <= k <= s.len(),
        forall|j: int| s.len() - k <= j < s.len() ==> s[j] == 0,
    ensures
        trailing_zeros(s) >= k,
        trailing_zeros(s) <= s.len(),
    decreases s.len(),
{
    if s.len() > 0 && s.last() == 0 {
        let t = s.drop_last();
        assert forall|j: int| t.len() - (k - 1) <= j < t.len() implies t[j] == 0 by {
            assert(t[j] == s[j]);
        }
        if k > 0 {
            lemma_trailing_zeros_at_least(t, k - 1);
        } else {
            lemma_trailing_zeros_at_least(t, 0);
        }
    }
}

/// The leading zeros of `s` are zero and the entry after them, if any, is not.
pub proof fn lemma_leading_zeros_prefix(s: Seq<usize>)
    ensures
        leading_zeros(s) <= s.len(),
        forall|j: int| 0 <= j < leading_zeros(s) ==> s[j] == 0,
        leading_zeros(s) < s.len() ==> s[leading_zeros(s) as int] != 0,
    decreases s.len(),
{
    if s.len() > 0 && s[0] == 0 {
        let t = s.drop_first();
        lemma_leading_zeros_prefix(t);
        assert forall|j: int| 0 <= j < leading_zeros(s) implies s[j] == 0 by {
            if j > 0 {
                assert(s[j] == t[j - 1]);
            }
        }
        if leading_zeros(s) < s.len() {
            assert(s[leading_zeros(s) as int] == t[leading_zeros(t) as int]);
        }
    }
}

/// The trailing zeros of `s` are zero and the entry before them, if any, is not.
pub proof fn lemma_trailing_zeros_suffix(s: Seq<usize>)
    ensures
        trailing_zeros(s) <= s.len(),
        forall|j: int| s.len() - trailing_zeros(s) <= j < s.len() ==> s[j] == 0,
        trailing_zeros(s) < s.len() ==> s[s.len() - trailing_zeros(s) - 1] != 0,
    decreases s.len(),
{
    if s.len() > 0 && s.last() == 0 {
        let t = s.drop_last();
        lemma_trailing_zeros_suffix(t);
        assert forall|j: int| s.len() - trailing_zeros(s) <= j < s.len() implies s[j] == 0 by {
            if j < s.len() - 1 {
                assert(s[j] == t[j]);
            }
        }
        if trailing_zeros(s) < s.len() {
            assert(s[s.len() - trailing_zeros(s) - 1] == t[t.len() - trailing_zeros(t) - 1]);
        }
    }
}

/// Gives the new dimensions before `q0`, right to left, to a chunk of `target` elements
/// with base stride `beta`: each gets `beta` times the number of elements its chunk
/// neighbours on the right span, until the chunk is covered and no dimension of size one
/// is left next to it. Returns the first dimension given to the chunk and the number of
/// elements the given dimensions span, or `None` when a stride or a count overflows.
fn assign_chunk_strides(
    new_shape: &[usize],
    new_stride: &mut Vec<usize>,
    q0: usize,
    target: usize,
    beta: usize,
) -> (r: Option<(usize, usize)>)
    requires
        q0 <= new_shape@.len(),
        old(new_stride)@.len() == new_shape@.len(),
    ensures
        final(new_stride)@.len() == new_shape@.len(),
        r matches Some(res) ==> {
            let (vd, v) = res;
            &&& vd <= q0
            &&& v == prod(new_shape@.subrange(vd as int, q0 as int))
            &&& !(vd > 0 && (v < target || new_shape@[vd - 1] == 1))
            &&& forall|k: int| vd <= k < q0 ==> #[trigger] final(new_stride)@[k] == beta * prod(
                new_shape@.subrange(k + 1, q0 as int),
            )
            &&& forall|k: int| 0 <= k < new_shape@.len() && !(vd <= k < q0) ==> #[trigger] final(new_stride)@[k]
                == old(new_stride)@[k]
        },
        (exists|q: int| 0 <= q <= q0 && #[trigger] prod(new_shape@.subrange(q, q0 as int)) == target) && prod(
            new_shape@.subrange(0, q0 as int),
        ) > 0 && target * beta <= usize::MAX ==> (r matches Some(res) && res.1 == target),
        target == 0 ==> (r matches Some(res) ==> res.1 == 1),
{
    let ghost e = new_shape@;
    let ghost ns0 = new_stride@;
    let ghost ok: bool = (exists|q: int| 0 <= q <= q0 && #[trigger] prod(e.subrange(q, q0 as int)) == target)
        && prod(e.subrange(0, q0 as int)) > 0 && target * beta <= usize::MAX;
    let ghost q: int = if ok {
        choose|q: int| 0 <= q <= q0 && #[trigger] prod(e.subrange(q, q0 as int)) == target
    } else {
        0
    };
    let mut view_d: usize = q0;
    let mut view_numel: usize = 1;
    proof {
        assert(e.subrange(q0 as int, q0 as int) =~= Seq::<usize>::empty());
        if ok {
            lemma_suffix_prod_mono(e, 0, q, q0 as int, q0 as int);
        }
    }
    while view_d > 0 && (view_numel < target || new_shape[view_d - 1] == 1)
        invariant
            e == new_shape@,
            q0 <= e.len(),
            ns0.len() == e.len(),
            new_stride@.len() == e.len(),
            view_d <= q0,
            view_numel == prod(e.subrange(view_d as int, q0 as int)),
            forall|k: int| view_d <= k < q0 ==> #[trigger] new_stride@[k] == beta * prod(e.subrange(k + 1, q0 as int)),
            forall|k: int| 0 <= k < e.len() && !(view_d <= k < q0) ==> #[trigger] new_stride@[k] == ns0[k],
            ok == ((exists|q: int| 0 <= q <= q0 && #[trigger] prod(e.subrange(q, q0 as int)) == target) && prod(
                e.subrange(0, q0 as int),
            ) > 0 && target * beta <= usize::MAX),
            ok ==> 0 <= q <= q0 && prod(e.subrange(q, q0 as int)) == target,
            ok ==> view_numel <= target && (view_numel < target ==> q < view_d),
            target == 0 ==> view_numel == 1,
        decreases view_d,
    {
        let vd = view_d - 1;
        proof {
            lemma_prod_extend_left(e, vd as int + 1, q0 as int);
            lemma_mul_is_commutative(e[vd as int] as int, view_numel as int);
            lemma_mul_is_commutative(view_numel as int, beta as int);
            if ok {
                lemma_mul_inequality(view_numel as int, target as int, beta as int);
                lemma_mul_basics(view_numel as int);
                if view_numel < target {
                    lemma_suffix_prod_mono(e, 0, q, vd as int, q0 as int);
                }
            }
        }
        let st = match view_numel.checked_mul(beta) {
            Some(v) => v,
            None => return None,
        };
        new_stride.set(vd, st);
        view_numel = match view_numel.checked_mul(new_shape[vd]) {
            Some(v) => v,
            None => return None,
        };
        view_d = vd;
    }
    Some((view_d, view_numel))
}

/// One more chunk of old dimensions (`td..ce`, with scaled row-major strides of base
/// `beta`) and the new dimensions given to it (`vd..q0`) extend on the left two
/// layouts that address the same elements.
proof fn reshape_join_step(
    d: Seq<usize>,
    s: Seq<usize>,
    e: Seq<usize>,
    ns: Seq<usize>,
    td: int,
    ce: int,
    vd: int,
    q0: int,
    beta: int,
)
    requires
        d.len() == s.len(),
        e.len() == ns.len(),
        0 <= td < ce <= d.len(),
        0 <= vd <= q0 <= e.len(),
        forall|j: int| td <= j < ce ==> d[j] == 1 || #[trigger] s[j] == beta * prod(d.subrange(j + 1, ce)),
        forall|k: int| vd <= k < q0 ==> #[trigger] ns[k] == beta * prod(e.subrange(k + 1, q0)),
        prod(d.subrange(td, ce)) == prod(e.subrange(vd, q0)),
        same_elements(
            d.subrange(ce, d.len() as int),
            s.subrange(ce, d.len() as int),
            e.subrange(q0, e.len() as int),
            ns.subrange(q0, e.len() as int),
        ),
    ensures
        same_elements(
            d.subrange(td, d.len() as int),
            s.subrange(td, d.len() as int),
            e.subrange(vd, e.len() as int),
            ns.subrange(vd, e.len() as int),
        ),
{
    let n = d.len() as int;
    let m = e.len() as int;
    let dc = d.subrange(td, ce);
    let sc = s.subrange(td, ce);
    let ec = e.subrange(vd, q0);
    let tc = ns.subrange(vd, q0);
    assert forall|j: int| 0 <= j < dc.len() implies dc[j] == 1 || #[trigger] sc[j] == beta * prod(
        dc.subrange(j + 1, dc.len() as int),
    ) by {
        assert(dc.subrange(j + 1, dc.len() as int) =~= d.subrange(td + j + 1, ce));
        assert(sc[j] == s[td + j]);
    }
    assert forall|k: int| 0 <= k < ec.len() implies ec[k] == 1 || #[trigger] tc[k] == beta * prod(
        ec.subrange(k + 1, ec.len() as int),
    ) by {
        assert(ec.subrange(k + 1, ec.len() as int) =~= e.subrange(vd + k + 1, q0));
        assert(tc[k] == ns[vd + k]);
    }
    lemma_join_chunk(
        dc,
        sc,
        ec,
        tc,
        d.subrange(ce, n),
        s.subrange(ce, n),
        e.subrange(q0, m),
        ns.subrange(q0, m),
        beta,
    );
    assert(dc + d.subrange(ce, n) =~= d.subrange(td, n));
    assert(sc + s.subrange(ce, n) =~= s.subrange(td, n));
    assert(ec + e.subrange(q0, m) =~= e.subrange(vd, m));
    assert(tc + ns.subrange(q0, m) =~= ns.subrange(vd, m));
}

/// A chunk of positive dimensions with scaled row-major strides of base `beta`, in which
/// every dimension's extent (size times stride) fits in a `usize`, spans at most
/// `usize::MAX` when scaled by `beta`.
proof fn lemma_chunk_extent(d: Seq<usize>, s: Seq<usize>, beta: int, lo: int, ce: int)
    requires
        d.len() == s.len(),
        0 <= lo <= ce <= d.len(),
        0 <= beta <= usize::MAX,
        forall|j: int| lo <= j < ce ==> d[j] == 1 || #[trigger] s[j] == beta * prod(d.subrange(j + 1, ce)),
        forall|i: int| 0 <= i < d.len() ==> d[i] * #[trigger] s[i] <= usize::MAX,
        prod(d.subrange(lo, ce)) > 0,
    ensures
        prod(d.subrange(lo, ce)) * beta <= usize::MAX,
    decreases ce - lo,
{
    if lo == ce {
        assert(d.subrange(lo, ce) =~= Seq::<usize>::empty());
        lemma_mul_basics(beta);
    } else {
        lemma_prod_extend_left(d, lo + 1, ce);
        let rest = prod(d.subrange(lo + 1, ce)) as int;
        lemma_pos_factors(d[lo] as int, rest);
        if d[lo] == 1 {
            lemma_mul_basics(rest);
            lemma_chunk_extent(d, s, beta, lo + 1, ce);
        } else {
            assert(s[lo] == beta * rest);
            assert(d[lo] * s[lo] <= usize::MAX);
            vstd::arithmetic::mul::lemma_mul_is_associative(d[lo] as int, rest, beta);
            lemma_mul_is_commutative(rest, beta);
        }
    }
}

/// After the new dimensions `vd..q0` are given to a chunk of base stride `beta`, every
/// new dimension of size one from `vd` on has the stride of its right neighbour times that
/// neighbour's size, or, innermost, the innermost old stride.
proof fn reshape_size_one_step(
    d: Seq<usize>,
    s: Seq<usize>,
    e: Seq<usize>,
    ns0: Seq<usize>,
    ns: Seq<usize>,
    ce: int,
    vd: int,
    q0: int,
    beta: int,
)
    requires
        d.len() == s.len(),
        d.len() > 0,
        e.len() == ns0.len(),
        e.len() == ns.len(),
        0 <= vd <= q0 <= e.len(),
        0 < ce <= d.len(),
        ce == d.len() ==> beta == s[d.len() - 1],
        q0 < e.len() ==> ce < d.len(),
        ce < d.len() && q0 > 0 ==> e[q0 - 1] != 1,
        forall|k: int| vd <= k < q0 ==> #[trigger] ns[k] == beta * prod(e.subrange(k + 1, q0)),
        forall|k: int| 0 <= k < e.len() && !(vd <= k < q0) ==> #[trigger] ns[k] == ns0[k],
        forall|k: int| q0 <= k < e.len() && e[k] == 1 ==> #[trigger] ns0[k] as int == (if k + 1 < e.len() {
            ns0[k + 1] * e[k + 1]
        } else {
            s[d.len() - 1] as int
        }),
    ensures
        forall|k: int| vd <= k < e.len() && e[k] == 1 ==> #[trigger] ns[k] as int == (if k + 1 < e.len() {
            ns[k + 1] * e[k + 1]
        } else {
            s[d.len() - 1] as int
        }),
{
    let m = e.len() as int;
    let n = d.len() as int;
    assert forall|k: int| vd <= k < m && e[k] == 1 implies #[trigger] ns[k] as int == (if k + 1 < m {
        ns[k + 1] * e[k + 1]
    } else {
        s[n - 1] as int
    }) by {
        if k >= q0 {
            assert(ns[k] == ns0[k]);
            if k + 1 < m {
                assert(ns[k + 1] == ns0[k + 1]);
            }
        } else if k + 1 < q0 {
            lemma_prod_extend_left(e, k + 2, q0);
            assert(e.subrange(k + 1, q0) == e.subrange(k + 2 - 1, q0));
            let p = prod(e.subrange(k + 2, q0)) as int;
            assert(ns[k + 1] == beta * p);
            vstd::arithmetic::mul::lemma_mul_is_associative(beta, e[k + 1] as int, p);
            lemma_mul_is_commutative(e[k + 1] as int, p);
            vstd::arithmetic::mul::lemma_mul_is_associative(beta, p, e[k + 1] as int);
        } else {
            assert(e.subrange(k + 1, q0) =~= Seq::<usize>::empty());
            assert(prod(Seq::<usize>::empty()) == 1);
            lemma_mul_basics(beta);
            assert(ns[k] == beta);
        }
    }
}

/// For a reshape that can succeed: the chunk of old dimensions `td..ce`, at the right end
/// of the old dimensions still to match (`0..ce`), is spanned exactly by a suffix
/// `q..q0` of the new dimensions still to match (`0..q0`).
proof fn reshape_chunk_target(
    d: Seq<usize>,
    s: Seq<usize>,
    e: Seq<usize>,
    td: int,
    ce: int,
    q0: int,
    beta: int,
) -> (q: int)
    requires
        d.len() == s.len(),
        0 <= td < ce <= d.len(),
        0 <= q0 <= e.len(),
        prod(d) > 0,
        exists|t: Seq<usize>| t.len() == q0 && #[trigger] same_elements(
            d.subrange(0, ce),
            s.subrange(0, ce),
            e.subrange(0, q0),
            t,
        ),
        forall|j: int| td <= j < ce ==> d[j] == 1 || #[trigger] s[j] == beta * prod(d.subrange(j + 1, ce)),
        td > 0 ==> d[td - 1] != 1 && s[td - 1] != beta * prod(d.subrange(td, ce)),
    ensures
        0 <= q <= q0,
        prod(e.subrange(q, q0)) == prod(d.subrange(td, ce)),
        prod(e.subrange(0, q0)) > 0,
{
    let t = choose|t: Seq<usize>| t.len() == q0 && #[trigger] same_elements(
        d.subrange(0, ce),
        s.subrange(0, ce),
        e.subrange(0, q0),
        t,
    );
    let dd = d.subrange(0, ce);
    let ss = s.subrange(0, ce);
    let ee = e.subrange(0, q0);
    lemma_sub_prod_le(d, 0, ce);
    let dc = dd.subrange(td, ce);
    let sc = ss.subrange(td, ce);
    assert(dc =~= d.subrange(td, ce));
    assert forall|j: int| 0 <= j < dc.len() implies dc[j] == 1 || #[trigger] sc[j] == beta * prod(
        dc.subrange(j + 1, dc.len() as int),
    ) by {
        assert(dc.subrange(j + 1, dc.len() as int) =~= d.subrange(td + j + 1, ce));
        assert(sc[j] == s[td + j]);
    }
    if td > 0 {
        assert(dd[td - 1] == d[td - 1]);
        assert(ss[td - 1] == s[td - 1]);
    }
    lemma_chunk_alignment(dd, ss, ee, t, td, beta);
    let q = choose|q: int| 0 <= q <= ee.len() && prod(#[trigger] ee.subrange(q, ee.len() as int)) == prod(
        dd.subrange(td, dd.len() as int),
    );
    assert(ee.subrange(q, q0) =~= e.subrange(q, q0));
    q
}

/// Once the chunk `td..ce` of old dimensions and the new dimensions `vd..q0` spanning it
/// are set apart, the old dimensions `0..td` and the new dimensions `0..vd` still address
/// the same elements under some strides.
proof fn reshape_outer_step(d: Seq<usize>, s: Seq<usize>, e: Seq<usize>, td: int, ce: int, vd: int, q0: int)
    requires
        d.len() == s.len(),
        0 <= td <= ce <= d.len(),
        0 <= vd <= q0 <= e.len(),
        prod(d.subrange(td, ce)) == prod(e.subrange(vd, q0)),
        prod(d.subrange(td, ce)) > 0,
        exists|t: Seq<usize>| t.len() == q0 && #[trigger] same_elements(
            d.subrange(0, ce),
            s.subrange(0, ce),
            e.subrange(0, q0),
            t,
        ),
    ensures
        exists|t: Seq<usize>| t.len() == vd && #[trigger] same_elements(
            d.subrange(0, td),
            s.subrange(0, td),
            e.subrange(0, vd),
            t,
        ),
{
    let t = choose|t: Seq<usize>| t.len() == q0 && #[trigger] same_elements(
        d.subrange(0, ce),
        s.subrange(0, ce),
        e.subrange(0, q0),
        t,
    );
    assert(d.subrange(0, ce) =~= d.subrange(0, td) + d.subrange(td, ce));
    assert(s.subrange(0, ce) =~= s.subrange(0, td) + s.subrange(td, ce));
    assert(e.subrange(0, q0) =~= e.subrange(0, vd) + e.subrange(vd, q0));
    assert(t =~= t.subrange(0, vd) + t.subrange(vd, q0));
    lemma_outer_equiv(
        d.subrange(0, td),
        s.subrange(0, td),
        d.subrange(td, ce),
        s.subrange(td, ce),
        e.subrange(0, vd),
        t.subrange(0, vd),
        e.subrange(vd, q0),
        t.subrange(vd, q0),
    );
    assert(t.subrange(0, vd).len() == vd);
}

/// The layout of a tensor over its storage.
#[derive(Debug, PartialEq, Eq, Clone)]
pub struct Layout {
    shape: Shape,
    // The strides are given in number of elements and not in bytes.
    stride: Vec<usize>,
    start_offset: usize,
}

impl View for Layout {
    type V = LayoutView;

    closed spec fn view(&self) -> LayoutView {
        LayoutView { dims: self.shape@, stride: self.stride@, start_offset: self.start_offset }
    }
}

/// Start offset, length and broadcast factors of a layout that is contiguous once its
/// leading and trailing zero-stride (broadcast) dimensions are set apart.
#[derive(Debug, Clone, PartialEq, Eq, Structural)]
pub struct ContiguousOffsetsWithBroadcast {
    pub start: usize,
    pub len: usize,
    pub left_broadcast: usize,
    pub right_broadcast: usize,
}

/// The `Debug` form of a slice of `usize` (such as `[2, 3, 4]`), as std writes it.
pub uninterp spec fn usize_slice_debug(s: Seq<usize>) -> Seq<char>;

/// The message refusing `idxs` as a permutation of the dimensions `dims`.
pub open spec fn permute_mismatch_text(dims: Seq<usize>, idxs: Seq<usize>) -> Seq<char> {
    "dimension mismatch in permute, tensor "@ + usize_slice_debug(dims) + ", dims: "@ + usize_slice_debug(idxs)
}

/// Formats, with `format!`, the message refusing `idxs` as a permutation of `dims`:
/// "dimension mismatch in permute, tensor {dims:?}, dims: {idxs:?}". The contract states
/// the fixed text and names the `Debug` forms of the two slices, which are std's and are
/// not restated.
#[verifier::external_body]
fn permute_mismatch_message(dims: &[usize], idxs: &[usize]) -> (r: String)
    ensures
        r@ == "dimension mismatch in permute, tensor "@ + usize_slice_debug(dims@) + ", dims: "@
            + usize_slice_debug(idxs@),
{
    format!("dimension mismatch in permute, tensor {:?}, dims: {:?}", dims, idxs)
}

/// Whether `v` occurs in `s`.
fn slice_contains(s: &[usize], v: usize) -> (r: bool)
    ensures
        r == s@.contains(v),
{
    let mut i: usize = 0;
    while i < s.len()
        invariant
            i <= s@.len(),
            forall|j: int| 0 <= j < i ==> s@[j] != v,
        decreases s@.len() - i,
    {
        if s[i] == v {
            return true;
        }
        i = i + 1;
    }
    false
}

/// Exchanges the entries at `a` and `b`.
fn swap_entries(v: &mut Vec<usize>, a: usize, b: usize)
    requires
        a < old(v)@.len(),
        b < old(v)@.len(),
    ensures
        final(v)@ == swapped(old(v)@, a as int, b as int),
        final(v)@.len() == old(v)@.len(),
        final(v)@[a as int] == old(v)@[b as int],
        final(v)@[b as int] == old(v)@[a as int],
        forall|k: int| 0 <= k < old(v)@.len() && k != a && k != b ==> final(v)@[k] == old(v)@[k],
{
    let x = v[a];
    let y = v[b];
    v.set(a, y);
    v.set(b, x);
}

/// Whether `idxs` lists each of the dimensions `0..rank` (and nothing else).
fn check_permutation(idxs: &[usize], rank: usize) -> (r: bool)
    ensures
        r == is_permutation(idxs@, rank as nat),
{
    if idxs.len() != rank {
        return false;
    }
    let mut i: usize = 0;
    while i < idxs.len()
        invariant
            i <= idxs@.len(),
            idxs@.len() == rank,
            forall|j: int| 0 <= j < i ==> #[trigger] idxs@.contains(j as usize),
        decreases idxs@.len() - i,
    {
        if !slice_contains(idxs, i) {
            assert(!idxs@.contains((i as int) as usize));
            return false;
        }
        i = i + 1;
    }
    true
}

impl Layout {
    /// One stride per dimension.
    pub open spec fn wf(&self) -> bool {
        self@.wf()
    }

    /// A layout with the given shape, strides and start offset.
    pub fn new(shape: Shape, stride: Vec<usize>, start_offset: usize) -> (r: Self)
        ensures
            r@ == (LayoutView { dims: shape@, stride: stride@, start_offset }),
    {
        Self { shape, stride, start_offset }
    }

    /// The C-contiguous (row-major) layout of `shape`, starting at `start_offset`.
    pub fn contiguous_with_offset(shape: Shape, start_offset: usize) -> (r: Self)
        requires
            suffix_products_fit(shape@),
        ensures
            r.wf(),
            r@.dims == shape@,
            r@.start_offset == start_offset,
            forall|i: int| 0 <= i < shape@.len() ==> r@.stride[i] == #[trigger] contiguous_stride_at(shape@, i),
    {
        let stride = shape.stride_contiguous();
        Self { shape, stride, start_offset }
    }

    /// The C-contiguous (row-major) layout of `shape`, starting at offset zero.
    pub fn contiguous(shape: Shape) -> (r: Self)
        requires
            suffix_products_fit(shape@),
        ensures
            r.wf(),
            r@.dims == shape@,
            r@.start_offset == 0,
            forall|i: int| 0 <= i < shape@.len() ==> r@.stride[i] == #[trigger] contiguous_stride_at(shape@, i),
    {
        Self::contiguous_with_offset(shape, 0)
    }

    /// The dimensions, outermost first.
    pub fn dims(&self) -> (r: &[usize])
        ensures
            r@ == self@.dims,
    {
        self.shape.dims()
    }

    /// The size of dimension `dim`.
    pub fn dim(&self, dim: usize) -> (r: Result<usize, Error>)
        ensures
            dim < self@.dims.len() ==> r == Ok::<usize, Error>(self@.dims[dim as int]),
            dim >= self@.dims.len() ==> (r matches Err(Error::DimOutOfRange { shape, dim: d, op })
                && shape@ == self@.dims && d == dim as i32 && op@ == "dim"@),
    {
        let dims = self.dims();
        if dim >= dims.len() {
            let d: i32 = #[verifier::truncate] (dim as i32);
            return Err(Error::DimOutOfRange { shape: self.shape.to_shape(), dim: d, op: "dim" });
        }
        Ok(dims[dim])
    }

    /// The shape.
    pub fn shape(&self) -> (r: &Shape)
        ensures
            r@ == self@.dims,
    {
        &self.shape
    }

    /// The strides, one per dimension, in elements.
    pub fn stride(&self) -> (r: &[usize])
        ensures
            r@ == self@.stride,
    {
        self.stride.as_slice()
    }

    /// The offset of the first element in the storage.
    pub fn start_offset(&self) -> (r: usize)
        ensures
            r == self@.start_offset,
    {
        self.start_offset
    }

    /// The start and stop offsets of the data, if it is stored in a C-contiguous
    /// (row-major) way.
    pub fn contiguous_offsets(&self) -> (r: Option<(usize, usize)>)
        requires
            is_c_contiguous(self@.dims, self@.stride) ==> prefix_products_fit(self@.dims)
                && self@.start_offset + prod(self@.dims) <= usize::MAX,
        ensures
            is_c_contiguous(self@.dims, self@.stride) ==> r == Some(
                (self@.start_offset, (self@.start_offset + prod(self@.dims)) as usize),
            ),
            !is_c_contiguous(self@.dims, self@.stride) ==> r is None,
            ({
                let d = self@.dims;
                let s = self@.stride;
                (r is Some) == (s.len() == d.len() && forall|i: int| 0 <= i < d.len() && d[i] > 1
                    ==> #[trigger] s[i] == prod(d.subrange(i + 1, d.len() as int)))
            }),
    {
        if self.is_contiguous() {
            let start_o = self.start_offset;
            Some((start_o, start_o + self.shape.elem_count()))
        } else {
            None
        }
    }

    /// Whether the data is stored in a C-contiguous (row-major) way. This says nothing of
    /// the start offset, nor of extra elements at the end of the storage.
    pub fn is_contiguous(&self) -> (r: bool)
        ensures
            r == is_c_contiguous(self@.dims, self@.stride),
            r == (self@.stride.len() == self@.dims.len() && forall|i: int| 0 <= i < self@.dims.len()
                && self@.dims[i] > 1 ==> #[trigger] self@.stride[i] == prod(
                self@.dims.subrange(i + 1, self@.dims.len() as int),
            )),
    {
        self.shape.is_contiguous(self.stride.as_slice())
    }

    /// Whether the data is stored in a Fortran-contiguous (column-major) way.
    pub fn is_fortran_contiguous(&self) -> (r: bool)
        ensures
            r == is_f_contiguous(self@.dims, self@.stride),
            r == (self@.stride.len() == self@.dims.len() && forall|i: int| 0 <= i < self@.dims.len()
                && self@.dims[i] > 1 ==> #[trigger] self@.stride[i] == prod(self@.dims.subrange(0, i))),
    {
        self.shape.is_fortran_contiguous(self.stride.as_slice())
    }

    /// Strides for reading this layout as `new_shape` without copying the data (the
    /// semantics of a `view`), or `None` when a copy is required.
    ///
    /// The dimensions are split, right to left, into maximal chunks that are contiguous
    /// with respect to each other; `new_shape` must refactor those same chunks.
    #[verifier::spinoff_prover]
    #[verifier::rlimit(40)]
    pub fn strided_reshape(&self, new_shape: &[usize]) -> (r: Option<Vec<usize>>)
        requires
            self.wf(),
        ensures
            r matches Some(ns) ==> ns@.len() == new_shape@.len(),
            self@.dims.len() == 0 ==> (r matches Some(ns) && forall|i: int| 0 <= i < ns@.len() ==> ns@[i] == 1),
            self@.dims.len() > 0 ==> (r matches Some(ns) ==> same_elements(self@.dims, self@.stride, new_shape@, ns@)),
            self@.dims.len() > 0 && 0 < prod(self@.dims) <= usize::MAX && (forall|i: int|
                0 <= i < self@.stride.len() ==> self@.dims[i] * #[trigger] self@.stride[i] <= usize::MAX) && (
            exists|t: Seq<usize>|
                t.len() == new_shape@.len() && #[trigger] same_elements(self@.dims, self@.stride, new_shape@, t))
                ==> r is Some,
            self@.dims.len() > 0 && prod(self@.dims) == 0 ==> r is None,
            self@.dims.len() > 0 ==> (r matches Some(ns) ==> forall|k: int|
                0 <= k < ns@.len() && new_shape@[k] == 1 ==> #[trigger] ns@[k] as int == (if k + 1 < ns@.len() {
                    ns@[k + 1] * new_shape@[k + 1]
                } else {
                    self@.stride.last() as int
                })),
            self@.dims.len() > 0 && is_c_contiguous(self@.dims, self@.stride) && self@.stride.last() == 1
                && prod(new_shape@) == prod(self@.dims) && 0 < prod(self@.dims) <= usize::MAX ==> (r matches Some(
                ns,
            ) && forall|k: int| 0 <= k < ns@.len() ==> ns@[k] == #[trigger] contiguous_stride_at(new_shape@, k)),
    {
        let old_shape = self.shape.dims();
        let old_stride = self.stride.as_slice();
        let n = old_shape.len();
        let m = new_shape.len();
        if n == 0 {
            let ones: Vec<usize> = vec![1; m];
            return Some(ones);
        }
        let ghost d = old_shape@;
        let ghost s = old_stride@;
        let ghost e = new_shape@;
        let mut new_stride: Vec<usize> = vec![0; m];
        // New dimensions `view_d..m` have their strides.
        let mut view_d: usize = m;
        // Base stride of the current contiguous chunk (starts at innermost).
        let mut chunk_base_stride: usize = old_stride[n - 1];
        let mut tensor_numel: usize = 1;
        // Old dimensions `tensor_d..n` have been visited; the current chunk ends at `ce`.
        let mut tensor_d: usize = n;
        let ghost mut ce: int = n as int;
        // The layout is C-contiguous with unit innermost stride and has as many (and at
        // least one) elements as the new shape: there is a single chunk and the new strides
        // are the C-contiguous ones.
        let ghost pk: bool = is_c_contiguous(d, s) && s.last() == 1 && prod(e) == prod(d) && 0 < prod(d)
            <= usize::MAX;
        // Some layout with the new shape addresses the same elements, and the extent of the
        // storage fits in a `usize`: the reshape succeeds.
        let ghost cp: bool = 0 < prod(d) <= usize::MAX && (forall|i: int| 0 <= i < n ==> d[i] * #[trigger] s[i]
            <= usize::MAX) && (exists|t: Seq<usize>| t.len() == m && #[trigger] same_elements(d, s, e, t));
        proof {
            assert(d.subrange(n as int, n as int) =~= Seq::<usize>::empty());
            assert(e.subrange(m as int, m as int) =~= Seq::<usize>::empty());
            assert(new_stride@.subrange(m as int, m as int) =~= Seq::<usize>::empty());
            assert(s.subrange(n as int, n as int) =~= Seq::<usize>::empty());
            assert(prod(Seq::<usize>::empty()) == 1);
            lemma_mul_basics(chunk_base_stride as int);
            if cp {
                let t0 = choose|t: Seq<usize>| t.len() == m && #[trigger] same_elements(d, s, e, t);
                assert(d.subrange(0, n as int) =~= d);
                assert(s.subrange(0, n as int) =~= s);
                assert(e.subrange(0, m as int) =~= e);
                assert(t0.len() == m && same_elements(
                    d.subrange(0, n as int),
                    s.subrange(0, n as int),
                    e.subrange(0, m as int),
                    t0,
                ));
            }
        }
        while tensor_d > 0
            invariant
                d == old_shape@,
                d == self@.dims,
                n > 0,
                s == old_stride@,
                s == self@.stride,
                e == new_shape@,
                n == d.len(),
                n == s.len(),
                m == e.len(),
                m == new_stride@.len(),
                view_d <= m,
                tensor_d <= ce <= n,
                tensor_d == 0 ==> ce == 0,
                ce > 0 ==> chunk_base_stride == s[ce - 1],
                tensor_d > 0 ==> tensor_numel == prod(d.subrange(tensor_d as int, ce)),
                forall|j: int| tensor_d <= j < ce ==> d[j] == 1
                    || #[trigger] s[j] == chunk_base_stride * prod(d.subrange(j + 1, ce)),
                tensor_d > 0 ==> (d[tensor_d - 1] == 1 || s[tensor_d - 1] == chunk_base_stride * prod(
                    d.subrange(tensor_d as int, ce),
                )),
                same_elements(
                    d.subrange(ce, n as int),
                    s.subrange(ce, n as int),
                    e.subrange(view_d as int, m as int),
                    new_stride@.subrange(view_d as int, m as int),
                ),
                pk == (is_c_contiguous(d, s) && s.last() == 1 && prod(e) == prod(d) && 0 < prod(d)
                    <= usize::MAX),
                pk && tensor_d > 0 ==> ce == n && chunk_base_stride == 1 && view_d == m,
                pk && tensor_d == 0 ==> view_d == 0 && forall|k: int| 0 <= k < m ==> new_stride@[k]
                    == #[trigger] contiguous_stride_at(e, k),
                cp == (0 < prod(d) <= usize::MAX && (forall|i: int| 0 <= i < n ==> d[i] * #[trigger] s[i]
                    <= usize::MAX) && (exists|t: Seq<usize>| t.len() == m && #[trigger] same_elements(d, s, e, t))),
                cp ==> exists|t: Seq<usize>| t.len() == view_d && #[trigger] same_elements(
                    d.subrange(0, ce),
                    s.subrange(0, ce),
                    e.subrange(0, view_d as int),
                    t,
                ),
                cp && tensor_d == 0 ==> view_d == 0,
                prod(d.subrange(ce, n as int)) > 0,
                view_d < m ==> ce < n,
                ce < n && view_d > 0 ==> e[view_d - 1] != 1,
                forall|k: int| view_d <= k < m && e[k] == 1 ==> #[trigger] new_stride@[k] as int == (if k + 1 < m {
                    new_stride@[k + 1] * e[k + 1]
                } else {
                    s[n - 1] as int
                }),
            decreases tensor_d,
        {
            tensor_d = tensor_d - 1;
            proof {
                lemma_prod_extend_left(d, tensor_d as int + 1, ce);
                lemma_mul_is_commutative(d[tensor_d as int] as int, prod(d.subrange(tensor_d + 1, ce)) as int);
                if pk {
                    lemma_sub_prod_le(d, tensor_d as int, n as int);
                }
                if cp {
                    lemma_sub_prod_le(d, tensor_d as int, ce);
                }
            }
            tensor_numel = match tensor_numel.checked_mul(old_shape[tensor_d]) {
                Some(v) => v,
                None => return None,
            };
            // A chunk ends at the leftmost dimension, or where the next dimension breaks
            // contiguity.
            let is_boundary = tensor_d == 0 || (old_shape[tensor_d - 1] != 1 && match tensor_numel.checked_mul(
                chunk_base_stride,
            ) {
                Some(p) => old_stride[tensor_d - 1] != p,
                None => true,
            });
            proof {
                if pk && tensor_d > 0 && d[tensor_d - 1] != 1 {
                    lemma_prod_zero(d);
                    assert(d[tensor_d - 1] != 0);
                    assert(d[tensor_d - 1] > 1);
                    assert(s[tensor_d - 1] == contiguous_stride_at(d, tensor_d - 1));
                    lemma_mul_basics(tensor_numel as int);
                }
            }
            if is_boundary {
                let ghost q0 = view_d as int;
                let ghost ns0 = new_stride@;
                proof {
                    if pk {
                        assert(tensor_d == 0);
                        assert(d.subrange(0, n as int) =~= d);
                        assert(e.subrange(0, m as int) =~= e);
                        assert(e.subrange(0, m as int).subrange(0, m as int) =~= e);
                        lemma_mul_basics(tensor_numel as int);
                    }
                    if cp {
                        assert(tensor_numel == prod(d.subrange(tensor_d as int, ce)));
                        lemma_mul_is_commutative(tensor_numel as int, chunk_base_stride as int);
                        if tensor_d > 0 {
                            assert(s[tensor_d - 1] != chunk_base_stride * prod(d.subrange(tensor_d as int, ce)));
                        }
                        let q = reshape_chunk_target(d, s, e, tensor_d as int, ce, q0, chunk_base_stride as int);
                        lemma_sub_prod_le(d, tensor_d as int, ce);
                        lemma_chunk_extent(d, s, chunk_base_stride as int, tensor_d as int, ce);
                        lemma_mul_is_commutative(chunk_base_stride as int, tensor_numel as int);
                    }
                }
                // Give new dimensions, right to left, to this chunk until it is covered.
                let (vd, view_numel) = match assign_chunk_strides(
                    new_shape,
                    &mut new_stride,
                    view_d,
                    tensor_numel,
                    chunk_base_stride,
                ) {
                    Some(res) => res,
                    None => return None,
                };
                view_d = vd;
                if view_numel != tensor_numel {
                    return None;
                }
                proof {
                    reshape_size_one_step(d, s, e, ns0, new_stride@, ce, view_d as int, q0, chunk_base_stride as int);
                    lemma_prod_split(d, tensor_d as int, ce, n as int);
                    vstd::arithmetic::mul::lemma_mul_strictly_positive(
                        prod(d.subrange(tensor_d as int, ce)) as int,
                        prod(d.subrange(ce, n as int)) as int,
                    );
                    assert(new_stride@.subrange(q0, m as int) =~= ns0.subrange(q0, m as int));
                    reshape_join_step(d, s, e, new_stride@, tensor_d as int, ce, view_d as int, q0, chunk_base_stride as int);
                    if pk {
                        assert(view_d == 0) by {
                            if view_d > 0 {
                                let vd1 = view_d - 1;
                                lemma_prod_zero(e);
                                assert(e[vd1 as int] != 0);
                                lemma_sub_prod_le(e, 0, vd1 as int);
                                lemma_prod_split(e, 0, view_d as int, m as int);
                                lemma_prod_extend_right(e, 0, vd1 as int);
                                assert(e.subrange(0, m as int) =~= e);
                                let a = prod(e.subrange(0, vd1 as int)) as int;
                                lemma_mul_inequality(1, a, e[vd1 as int] as int);
                                lemma_mul_basics(e[vd1 as int] as int);
                                lemma_mul_inequality(2, a * e[vd1 as int], view_numel as int);
                            }
                        }
                        assert forall|k: int| 0 <= k < m implies new_stride@[k] == #[trigger] contiguous_stride_at(
                            e,
                            k,
                        ) by {
                            lemma_mul_basics(prod(e.subrange(k + 1, m as int)) as int);
                        }
                    }
                    if cp {
                        lemma_sub_prod_le(d, tensor_d as int, ce);
                        reshape_outer_step(d, s, e, tensor_d as int, ce, view_d as int, q0);
                        if tensor_d == 0 && view_d > 0 {
                            // the new dimensions left over span one element: all are of size one
                            assert(d.subrange(0, 0) =~= Seq::<usize>::empty());
                            let w = choose|w: Seq<usize>| w.len() == view_d && #[trigger] same_elements(
                                d.subrange(0, 0),
                                s.subrange(0, 0),
                                e.subrange(0, view_d as int),
                                w,
                            );
                            assert(prod(e.subrange(0, view_d as int)) == 1);
                            lemma_prod_extend_right(e, 0, view_d - 1);
                            lemma_pos_factors(prod(e.subrange(0, view_d - 1)) as int, e[view_d - 1] as int);
                            lemma_mul_inequality(1, prod(e.subrange(0, view_d - 1)) as int, e[view_d - 1] as int);
                            lemma_mul_basics(e[view_d - 1] as int);
                            assert(false);
                        }
                    }
                    ce = tensor_d as int;
                }
                // Start the next chunk.
                if tensor_d > 0 {
                    chunk_base_stride = old_stride[tensor_d - 1];
                    tensor_numel = 1;
                    proof {
                        assert(d.subrange(ce, ce) =~= Seq::<usize>::empty());
                        lemma_mul_basics(chunk_base_stride as int);
                    }
                }
            } else {
                proof {
                    lemma_mul_is_commutative(tensor_numel as int, chunk_base_stride as int);
                }
            }
        }
        if view_d != 0 {
            return None;
        }
        proof {
            assert(d.subrange(0, n as int) =~= d);
            assert(s.subrange(0, n as int) =~= s);
            assert(e.subrange(0, m as int) =~= e);
            assert(new_stride@.subrange(0, m as int) =~= new_stride@);
        }
        Some(new_stride)
    }

    /// Restricts dimension `dim` to the `len` entries starting at `start`.
    pub fn narrow(&self, dim: usize, start: usize, len: usize) -> (r: Result<Self, Error>)
        requires
            self.wf(),
            dim < self@.dims.len() && start + len <= self@.dims[dim as int] ==> self@.start_offset
                + self@.stride[dim as int] * start <= usize::MAX,
        ensures
            dim >= self@.dims.len() ==> (r matches Err(Error::DimOutOfRange { shape, dim: d, op })
                && shape@ == self@.dims && d == dim as i32 && op@ == "narrow"@),
            dim < self@.dims.len() && start + len > self@.dims[dim as int] ==> (r matches Err(
                Error::NarrowInvalidArgs { shape, dim: d, start: s, len: l, msg },
            ) && shape@ == self@.dims && d == dim && s == start && l == len && msg@ == "start + len > dim_len"@),
            dim < self@.dims.len() && start + len <= self@.dims[dim as int] ==> (r matches Ok(l) && l.wf()
                && l@.dims == self@.dims.update(dim as int, len) && l@.stride == self@.stride
                && l@.start_offset == self@.start_offset + self@.stride[dim as int] * start),
    {
        let dims = self.shape.dims();
        if dim >= dims.len() {
            let d: i32 = #[verifier::truncate] (dim as i32);
            return Err(Error::DimOutOfRange { shape: self.shape.to_shape(), dim: d, op: "narrow" });
        }
        let too_long = match start.checked_add(len) {
            Some(end) => end > dims[dim],
            None => true,
        };
        if too_long {
            return Err(
                Error::NarrowInvalidArgs {
                    shape: self.shape.to_shape(),
                    dim,
                    start,
                    len,
                    msg: "start + len > dim_len",
                },
            );
        }
        let mut new_dims = vstd::slice::slice_to_vec(dims);
        new_dims.set(dim, len);
        proof {
            vstd::arithmetic::mul::lemma_mul_nonnegative(self.stride@[dim as int] as int, start as int);
        }
        Ok(
            Self {
                shape: Shape::from_vec(new_dims),
                stride: vstd::slice::slice_to_vec(self.stride.as_slice()),
                start_offset: self.start_offset + self.stride[dim] * start,
            },
        )
    }

    /// Exchanges dimensions `dim1` and `dim2`.
    pub fn transpose(&self, dim1: usize, dim2: usize) -> (r: Result<Self, Error>)
        requires
            self.wf(),
        ensures
            dim1 < self@.dims.len() && dim2 < self@.dims.len() ==> (r matches Ok(l) && l.wf()
                && l@.dims == swapped(self@.dims, dim1 as int, dim2 as int)
                && l@.stride == swapped(self@.stride, dim1 as int, dim2 as int)
                && l@.start_offset == self@.start_offset),
            dim1 < self@.dims.len() && dim2 < self@.dims.len() ==> (r matches Ok(l) && {
                let n = self@.dims.len();
                &&& l@.dims.len() == n
                &&& l@.stride.len() == n
                &&& l@.dims[dim1 as int] == self@.dims[dim2 as int]
                &&& l@.dims[dim2 as int] == self@.dims[dim1 as int]
                &&& l@.stride[dim1 as int] == self@.stride[dim2 as int]
                &&& l@.stride[dim2 as int] == self@.stride[dim1 as int]
                &&& forall|k: int| 0 <= k < n && k != dim1 && k != dim2 ==> l@.dims[k] == self@.dims[k]
                    && l@.stride[k] == self@.stride[k]
            }),
            !(dim1 < self@.dims.len() && dim2 < self@.dims.len()) ==> (r matches Err(
                Error::UnexpectedNumberOfDims { expected, got, shape },
            ) && expected == if dim1 >= dim2 { dim1 } else { dim2 } && got == self@.dims.len()
                && shape@ == self@.dims),
    {
        let rank = self.shape.rank();
        if rank <= dim1 || rank <= dim2 {
            let expected = if dim1 >= dim2 { dim1 } else { dim2 };
            return Err(
                Error::UnexpectedNumberOfDims {
                    expected,
                    got: rank,
                    shape: self.shape.to_shape(),
                },
            );
        }
        let mut stride = vstd::slice::slice_to_vec(self.stride.as_slice());
        let mut dims = vstd::slice::slice_to_vec(self.shape.dims());
        swap_entries(&mut dims, dim1, dim2);
        swap_entries(&mut stride, dim1, dim2);
        Ok(Self { shape: Shape::from_vec(dims), stride, start_offset: self.start_offset })
    }

    /// Reorders the dimensions: dimension `i` of the result is dimension `idxs[i]`.
    pub fn permute(&self, idxs: &[usize]) -> (r: Result<Self, Error>)
        requires
            self.wf(),
        ensures
            is_permutation(idxs@, self@.dims.len()) ==> (r matches Ok(l) && l.wf()
                && l@.dims == permuted(self@.dims, idxs@)
                && l@.stride == permuted(self@.stride, idxs@)
                && l@.start_offset == self@.start_offset),
            is_permutation(idxs@, self@.dims.len()) ==> (r matches Ok(l) && {
                let n = self@.dims.len();
                &&& l@.dims.len() == n
                &&& l@.stride.len() == n
                &&& forall|i: int| 0 <= i < n ==> l@.dims[i] == self@.dims[idxs@[i] as int]
                    && l@.stride[i] == self@.stride[idxs@[i] as int]
            }),
            !is_permutation(idxs@, self@.dims.len()) ==> (r matches Err(Error::Msg(m)) && m@ == permute_mismatch_text(
                self@.dims,
                idxs@,
            )),
    {
        let rank = self.shape.rank();
        let is_permutation = check_permutation(idxs, rank);
        if !is_permutation {
            return Err(Error::Msg(permute_mismatch_message(self.shape.dims(), idxs)));
        }
        proof {
            lemma_perm_in_range(idxs@, rank as nat);
        }
        let stride = self.stride.as_slice();
        let dims = self.shape.dims();
        let mut perm_stride: Vec<usize> = Vec::new();
        let mut perm_dims: Vec<usize> = Vec::new();
        let mut i: usize = 0;
        while i < idxs.len()
            invariant
                i <= idxs@.len(),
                idxs@.len() == rank,
                rank == dims@.len(),
                rank == stride@.len(),
                dims@ == self@.dims,
                stride@ == self@.stride,
                forall|j: int| 0 <= j < rank ==> idxs@[j] < rank,
                perm_dims@ == permuted(dims@, idxs@.subrange(0, i as int)),
                perm_stride@ == permuted(stride@, idxs@.subrange(0, i as int)),
            decreases idxs@.len() - i,
        {
            let idx = idxs[i];
            perm_stride.push(stride[idx]);
            perm_dims.push(dims[idx]);
            i = i + 1;
            assert(perm_dims@ =~= permuted(dims@, idxs@.subrange(0, i as int)));
            assert(perm_stride@ =~= permuted(stride@, idxs@.subrange(0, i as int)));
        }
        assert(idxs@.subrange(0, idxs@.len() as int) =~= idxs@);
        Ok(Self { shape: Shape::from_vec(perm_dims), stride: perm_stride, start_offset: self.start_offset })
    }

    /// Broadcasts to `shape`: dimensions are added on the left and dimensions of size one
    /// stretched, both with stride zero.
    pub fn broadcast_as(&self, shape: Shape) -> (r: Result<Self, Error>)
        requires
            self.wf(),
        ensures
            broadcast_compatible(self@.dims, shape@) ==> (r matches Ok(l) && l.wf() && l@.dims == shape@
                && l@.stride == broadcast_stride(self@.dims, self@.stride, shape@)
                && l@.start_offset == self@.start_offset),
            broadcast_compatible(self@.dims, shape@) ==> (r matches Ok(l) && {
                let added = shape@.len() - self@.dims.len();
                &&& l@.stride.len() == shape@.len()
                &&& forall|i: int| 0 <= i < added ==> l@.stride[i] == 0
                &&& forall|i: int| added <= i < shape@.len() && shape@[i] == self@.dims[i - added]
                    ==> l@.stride[i] == self@.stride[i - added]
                &&& forall|i: int| added <= i < shape@.len() && shape@[i] != self@.dims[i - added]
                    ==> l@.stride[i] == 0
            }),
            !broadcast_compatible(self@.dims, shape@) ==> (r matches Err(
                Error::BroadcastIncompatibleShapes { src_shape, dst_shape },
            ) && src_shape@ == self@.dims && dst_shape@ == shape@),
    {
        let src = self.shape.dims();
        let src_stride = self.stride.as_slice();
        let dst = shape.dims();
        if dst.len() < src.len() {
            return Err(
                Error::BroadcastIncompatibleShapes { src_shape: self.shape.to_shape(), dst_shape: shape },
            );
        }
        let added_dims = dst.len() - src.len();
        let mut stride: Vec<usize> = vec![0; added_dims];
        let mut j: usize = 0;
        while j < src.len()
            invariant
                src@ == self@.dims,
                src_stride@ == self@.stride,
                dst@ == shape@,
                dst@.len() >= src@.len(),
                dst@.len() == dst.len(),
                src@.len() == src_stride@.len(),
                added_dims == dst@.len() - src@.len(),
                j <= src@.len(),
                stride@.len() == added_dims + j,
                forall|k: int| 0 <= k < j ==> #[trigger] src@[k] == dst@[added_dims + k] || src@[k] == 1,
                forall|i: int| 0 <= i < stride@.len() ==> stride@[i] == #[trigger] broadcast_stride(src@, src_stride@, dst@)[i],
            decreases src@.len() - j,
        {
            let dst_dim = dst[added_dims + j];
            let src_dim = src[j];
            let s = if dst_dim == src_dim {
                src_stride[j]
            } else if src_dim != 1 {
                return Err(
                    Error::BroadcastIncompatibleShapes { src_shape: self.shape.to_shape(), dst_shape: shape },
                );
            } else {
                0
            };
            stride.push(s);
            j = j + 1;
        }
        assert(stride@ =~= broadcast_stride(src@, src_stride@, dst@));
        Ok(Self { shape, stride, start_offset: self.start_offset })
    }

    /// A walk over the storage offsets of this layout.
    pub fn strided_index(&self) -> (r: StridedIndex<'_>)
        ensures
            r.dims_view() == self@.dims,
            r.stride_view() == self@.stride,
            r.next_index_view() == (if prod(self@.dims) == 0 { None } else { Some(self@.start_offset) }),
            r.multi_index_view().len() == self@.dims.len(),
            forall|i: int| 0 <= i < self@.dims.len() ==> r.multi_index_view()[i] == 0,
            self.wf() ==> r.valid(),
    {
        StridedIndex::new(self.dims(), self.stride(), self.start_offset())
    }

    /// The storage of this layout as blocks of contiguous elements: the innermost
    /// dimensions whose strides are packed form the blocks, the others are walked over.
    pub fn strided_blocks(&self) -> (r: StridedBlocks<'_>)
        requires
            self.wf(),
            packed_products_fit(self@.dims, self@.stride),
        ensures
            r matches StridedBlocks::SingleBlock { start_offset: o, len } ==> {
                &&& packed_from(self@.dims, self@.stride, 0)
                &&& o == self@.start_offset
                &&& len == prod(self@.dims)
            },
            r matches StridedBlocks::MultipleBlocks { block_start_index, block_len } ==> {
                let k = block_start_index.dims_view().len() as int;
                &&& 0 < k <= self@.dims.len()
                &&& packed_from(self@.dims, self@.stride, k)
                &&& !packed_from(self@.dims, self@.stride, k - 1)
                &&& block_len == prod(self@.dims.subrange(k, self@.dims.len() as int))
                &&& block_start_index.dims_view() == self@.dims.subrange(0, k)
                &&& block_start_index.stride_view() == self@.stride.subrange(0, k)
                &&& block_start_index.next_index_view() == (if prod(self@.dims.subrange(0, k)) == 0 {
                    None
                } else {
                    Some(self@.start_offset)
                })
                &&& forall|i: int| 0 <= i < k ==> block_start_index.multi_index_view()[i] == 0
                &&& block_start_index.valid()
            },
            packed_from(self@.dims, self@.stride, 0) ==> r is SingleBlock,
    {
        let dims = self.shape.dims();
        let stride = self.stride.as_slice();
        let n = dims.len();
        let mut block_len: usize = 1;
        // These are counted from the right.
        let mut contiguous_dims: usize = 0;
        proof {
            assert(dims@.subrange(n as int, n as int) =~= Seq::<usize>::empty());
        }
        while contiguous_dims < n
            invariant
                dims@ == self@.dims,
                stride@ == self@.stride,
                n == dims@.len(),
                n == stride@.len(),
                contiguous_dims <= n,
                packed_products_fit(dims@, stride@),
                packed_from(dims@, stride@, n - contiguous_dims),
                block_len == prod(dims@.subrange(n - contiguous_dims, n as int)),
            ensures
                contiguous_dims == n || stride@[n - 1 - contiguous_dims] != block_len,
            decreases n - contiguous_dims,
        {
            let i = n - 1 - contiguous_dims;
            if stride[i] != block_len {
                break;
            }
            proof {
                lemma_prod_extend_left(dims@, i as int + 1, n as int);
                lemma_mul_is_commutative(dims@[i as int] as int, block_len as int);
                assert(packed_between(dims@, stride@, i as int, n as int));
                assert(prod(dims@.subrange(i as int, n as int)) <= usize::MAX);
            }
            block_len = block_len * dims[i];
            contiguous_dims = contiguous_dims + 1;
        }
        let index_dims = n - contiguous_dims;
        if index_dims == 0 {
            proof {
                assert(dims@.subrange(0, n as int) =~= dims@);
                assert(contiguous_dims == n);
                assert(packed_from(self@.dims, self@.stride, 0));
                assert(block_len == prod(self@.dims));
            }
            StridedBlocks::SingleBlock { start_offset: self.start_offset, len: block_len }
        } else {
            proof {
                let k = index_dims as int;
                assert(dims@.subrange(k - 1 + 1, n as int) == dims@.subrange(k, n as int));
                assert(!packed_from(dims@, stride@, k - 1));
            }
            let block_start_index = StridedIndex::new(
                vstd::slice::slice_subrange(dims, 0, index_dims),
                vstd::slice::slice_subrange(stride, 0, index_dims),
                self.start_offset,
            );
            StridedBlocks::MultipleBlocks { block_start_index, block_len }
        }
    }

    /// The contiguous offsets of this layout once its leading and trailing broadcast
    /// (zero-stride) dimensions are set apart, if the dimensions between them are packed.
    pub fn offsets_b(&self) -> (r: Option<ContiguousOffsetsWithBroadcast>)
        requires
            self.wf(),
            prefix_products_fit(self@.dims.subrange(0, leading_zeros(self@.stride) as int)),
            leading_zeros(self@.stride) < self@.dims.len() ==> suffix_products_fit(
                self@.dims.subrange(self@.dims.len() - trailing_zeros(self@.stride), self@.dims.len() as int),
            ),
            leading_zeros(self@.stride) < self@.dims.len() ==> packed_products_fit_between(
                self@.dims,
                self@.stride,
                leading_zeros(self@.stride) as int,
                self@.dims.len() - trailing_zeros(self@.stride),
            ),
        ensures
            ({
                let d = self@.dims;
                let s = self@.stride;
                let n = d.len() as int;
                let a = leading_zeros(s) as int;
                let b = trailing_zeros(s) as int;
                &&& a == n ==> r == Some(
                    ContiguousOffsetsWithBroadcast {
                        start: self@.start_offset,
                        len: 1,
                        left_broadcast: prod(d) as usize,
                        right_broadcast: 1,
                    },
                )
                &&& a < n ==> a < n - b
                &&& a < n ==> (r is Some <==> packed_between(d, s, a, n - b))
                &&& a < n ==> (r is Some <==> forall|j: int| a <= j < n - b ==> #[trigger] s[j] == prod(
                    d.subrange(j + 1, n - b),
                ))
                &&& a < n ==> (r matches Some(o) ==> o == ContiguousOffsetsWithBroadcast {
                    start: self@.start_offset,
                    len: prod(d.subrange(a, n - b)) as usize,
                    left_broadcast: prod(d.subrange(0, a)) as usize,
                    right_broadcast: prod(d.subrange(n - b, n)) as usize,
                })
            }),
    {
        let strides = self.stride.as_slice();
        let dims = self.shape.dims();
        let n = dims.len();
        let ghost d = dims@;
        let ghost s = strides@;
        let mut left_broadcast: usize = 1;
        let mut right_broadcast: usize = 1;
        let mut start_cont: usize = 0;
        proof {
            assert(d.subrange(0, 0) =~= Seq::<usize>::empty());
        }
        while start_cont < n
            invariant
                d == dims@,
                s == strides@,
                d == self@.dims,
                s == self@.stride,
                n == d.len(),
                n == s.len(),
                start_cont <= n,
                forall|j: int| 0 <= j < start_cont ==> s[j] == 0,
                left_broadcast == prod(d.subrange(0, start_cont as int)),
                prefix_products_fit(d.subrange(0, leading_zeros(s) as int)),
            ensures
                start_cont == n || s[start_cont as int] != 0,
            decreases n - start_cont,
        {
            if strides[start_cont] != 0 {
                break;
            }
            proof {
                lemma_prod_extend_right(d, 0, start_cont as int);
                lemma_leading_zeros_at_least(s, start_cont as int + 1);
                assert(d.subrange(0, leading_zeros(s) as int).subrange(0, start_cont + 1) =~= d.subrange(
                    0,
                    start_cont + 1,
                ));
            }
            left_broadcast = left_broadcast * dims[start_cont];
            start_cont = start_cont + 1;
        }
        proof {
            lemma_leading_zeros(s, start_cont as int);
        }
        if start_cont == n {
            proof {
                assert(d.subrange(0, n as int) =~= d);
            }
            return Some(
                ContiguousOffsetsWithBroadcast {
                    start: self.start_offset,
                    len: 1,
                    left_broadcast,
                    right_broadcast: 1,
                },
            );
        }
        let mut end_cont: usize = n;
        proof {
            assert(d.subrange(n as int, n as int) =~= Seq::<usize>::empty());
        }
        while end_cont > 0
            invariant
                d == dims@,
                s == strides@,
                n == d.len(),
                n == s.len(),
                start_cont < end_cont <= n,
                s[start_cont as int] != 0,
                leading_zeros(s) == start_cont,
                forall|j: int| end_cont <= j < n ==> s[j] == 0,
                right_broadcast == prod(d.subrange(end_cont as int, n as int)),
                suffix_products_fit(d.subrange(n - trailing_zeros(s), n as int)),
            ensures
                start_cont < end_cont,
                s[end_cont - 1] != 0,
            decreases end_cont,
        {
            if strides[end_cont - 1] != 0 {
                break;
            }
            proof {
                lemma_prod_extend_left(d, end_cont as int, n as int);
                lemma_trailing_zeros_at_least(s, n - end_cont + 1);
                let k = n - trailing_zeros(s);
                assert(d.subrange(k, n as int).subrange(end_cont - 1 - k, n - k) =~= d.subrange(
                    end_cont - 1,
                    n as int,
                ));
                lemma_mul_is_commutative(d[end_cont - 1] as int, right_broadcast as int);
            }
            right_broadcast = right_broadcast * dims[end_cont - 1];
            end_cont = end_cont - 1;
        }
        proof {
            lemma_trailing_zeros(s, n - end_cont);
        }
        // The dimensions between the broadcast ones must be packed.
        let mut len: usize = 1;
        let mut i: usize = end_cont;
        proof {
            assert(d.subrange(end_cont as int, end_cont as int) =~= Seq::<usize>::empty());
        }
        while i > start_cont
            invariant
                d == dims@,
                s == strides@,
                n == d.len(),
                n == s.len(),
                start_cont <= i <= end_cont <= n,
                start_cont < end_cont,
                d == self@.dims,
                s == self@.stride,
                leading_zeros(s) == start_cont,
                trailing_zeros(s) == n - end_cont,
                left_broadcast == prod(d.subrange(0, start_cont as int)),
                right_broadcast == prod(d.subrange(end_cont as int, n as int)),
                packed_between(d, s, i as int, end_cont as int),
                len == prod(d.subrange(i as int, end_cont as int)),
                packed_products_fit_between(d, s, start_cont as int, end_cont as int),
            decreases i,
        {
            if strides[i - 1] != len {
                proof {
                    assert(d.subrange(i - 1 + 1, end_cont as int) == d.subrange(i as int, end_cont as int));
                    assert(!packed_between(d, s, start_cont as int, end_cont as int));
                }
                return None;
            }
            proof {
                lemma_prod_extend_left(d, i as int, end_cont as int);
                lemma_mul_is_commutative(d[i - 1] as int, len as int);
                assert(packed_between(d, s, i - 1, end_cont as int));
            }
            len = len * dims[i - 1];
            i = i - 1;
        }
        Some(ContiguousOffsetsWithBroadcast { start: self.start_offset, len, left_broadcast, right_broadcast })
    }
}

} // verus!
