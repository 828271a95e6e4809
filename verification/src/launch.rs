//! The shape checks and launch parameters of the hand-written GPU kernels
//! (rotary embeddings, concatenation, softmax, causal masking, attention).
//! Encoding and dispatching the kernels themselves is left to the caller.
use vstd::prelude::*;
use crate::lang::Error;
use crate::shape::{lemma_prod_at, lemma_prod_nz_subrange, prod, prod_range, shape_fits};

verus! {

/// The four dimensions of a rank-4 shape.
pub open spec fn dims4_of(s: Seq<usize>) -> (usize, usize, usize, usize) {
    (s[0], s[1], s[2], s[3])
}

/// Reads a rank-4 shape.
pub fn dims4(dims: &Vec<usize>) -> (r: Result<(usize, usize, usize, usize), Error>)
    ensures
        r is Ok <==> dims@.len() == 4,
        r matches Ok(t) ==> t == dims4_of(dims@),
        r is Err ==> r == Err::<(usize, usize, usize, usize), Error>(
            Error::RankMismatch { lhs: dims@.len() as usize, rhs: 4 },
        ),
{
    if dims.len() != 4 {
        return Err(Error::RankMismatch { lhs: dims.len(), rhs: 4 });
    }
    Ok((dims[0], dims[1], dims[2], dims[3]))
}

proof fn lemma_prod4(s: Seq<usize>)
    requires
        s.len() == 4,
    ensures
        prod(s) == s[0] * s[1] * s[2] * s[3],
{
    reveal_with_fuel(prod, 5);
    assert(s.drop_last().drop_last().drop_last().drop_last() =~= Seq::<usize>::empty());
    let a = s[0] as int;
    let b = s[1] as int;
    let c = s[2] as int;
    let d = s[3] as int;
    assert(1 * a * b * c * d == a * b * c * d) by (nonlinear_arith);
}

proof fn lemma_prod4_parts(s: Seq<usize>)
    requires
        s.len() == 4,
        shape_fits(s),
    ensures
        s[0] * s[1] * s[2] * s[3] <= usize::MAX,
        s[0] * s[1] <= usize::MAX,
        s[0] * s[1] * s[2] <= usize::MAX,
        s[2] * s[3] <= usize::MAX,
{
    lemma_prod4(s);
    lemma_prod_nz_subrange(s, 0, 4);
    assert(s.subrange(0, 4) =~= s);
    lemma_prod_nz_subrange(s, 0, 2);
    lemma_prod_nz_subrange(s, 2, 4);
    lemma_prod_nz_subrange(s, 0, 3);
    reveal_with_fuel(prod, 4);
    assert(s.subrange(0, 3).drop_last().drop_last().drop_last() =~= Seq::<usize>::empty());
    assert(s.subrange(0, 2).drop_last().drop_last() =~= Seq::<usize>::empty());
    assert(s.subrange(2, 4).drop_last().drop_last() =~= Seq::<usize>::empty());
    let a = s[0] as int;
    let b = s[1] as int;
    let c = s[2] as int;
    let d = s[3] as int;
    assert(1 * a * b == a * b) by (nonlinear_arith);
    assert(1 * a * b * c == a * b * c) by (nonlinear_arith);
    assert(1 * c * d == c * d) by (nonlinear_arith);
}

/// Launch parameters of the rotary-embedding kernels.
pub struct RopeParams {
    /// The number of (pairs of) elements the kernel covers: half the elements.
    pub num_elems: u32,
    /// Batch size times number of heads.
    pub bh: u32,
    /// Sequence length times head dimension.
    pub td: u32,
    /// Head dimension.
    pub d: u32,
    /// The shape `(b, h, t, d)` of the result.
    pub dims: (usize, usize, usize, usize),
}

/// The parameters of a rotary embedding over a `(b, h, t, d)` tensor.
pub fn rope_params(dims: &Vec<usize>) -> (r: Result<RopeParams, Error>)
    requires
        shape_fits(dims@),
    ensures
        r is Ok <==> dims@.len() == 4,
        r is Err ==> r == Err::<RopeParams, Error>(
            Error::RankMismatch { lhs: dims@.len() as usize, rhs: 4 },
        ),
        r matches Ok(p) ==> {
            let (b, h, t, d) = dims4_of(dims@);
            &&& p.dims == dims4_of(dims@)
            &&& p.num_elems == ((b * h * t * d) as u32) / 2
            &&& p.bh == (b * h) as u32
            &&& p.td == (t * d) as u32
            &&& p.d == d as u32
        },
{
    let (b, h, t, d) = dims4(dims)?;
    proof {
        lemma_prod4_parts(dims@);
    }
    #[verifier::truncate]
    let n = (b * h * t * d) as u32;
    #[verifier::truncate]
    let bh = (b * h) as u32;
    #[verifier::truncate]
    let td = (t * d) as u32;
    #[verifier::truncate]
    let d32 = d as u32;
    Ok(RopeParams { num_elems: n / 2, bh, td, d: d32, dims: (b, h, t, d) })
}

/// Launch parameters of the concatenation kernel.
pub struct CatParams {
    /// The shape of the result.
    pub dst_dims: Vec<usize>,
    /// The number of rows: the product of the dimensions before the axis.
    pub d1: usize,
    /// The length of a row of the left input.
    pub d2_l: usize,
    /// The length of a row of the right input.
    pub d2_r: usize,
    /// The length of a row of the result.
    pub d2_lr: usize,
}

/// The two shapes have the same rank and agree off `axis`.
pub open spec fn cat_shapes_agree(l: Seq<usize>, r: Seq<usize>, axis: int) -> bool {
    &&& l.len() == r.len()
    &&& forall|i: int| 0 <= i < l.len() && i != axis ==> #[trigger] l[i] == r[i]
}

/// The sizes of the concatenation are representable.
pub open spec fn cat_params_fit(l: Seq<usize>, r: Seq<usize>, axis: int) -> bool {
    &&& l[axis] + r[axis] <= usize::MAX
    &&& prod(l.subrange(axis, l.len() as int)) + prod(r.subrange(axis, r.len() as int))
        <= usize::MAX
}

/// The checks and parameters of concatenating two tensors along `axis`.
pub fn cat_params(l_dims: &Vec<usize>, r_dims: &Vec<usize>, axis: usize) -> (res: Result<
    CatParams,
    Error,
>)
    requires
        shape_fits(l_dims@),
        shape_fits(r_dims@),
        axis < l_dims@.len() && cat_shapes_agree(l_dims@, r_dims@, axis as int) ==> cat_params_fit(
            l_dims@,
            r_dims@,
            axis as int,
        ),
    ensures
        res is Ok <==> axis < l_dims@.len() && cat_shapes_agree(l_dims@, r_dims@, axis as int),
        axis >= l_dims@.len() ==> res == Err::<CatParams, Error>(
            Error::DimOutOfRange { dim: axis, rank: l_dims@.len() as usize },
        ),
        axis < l_dims@.len() && !cat_shapes_agree(l_dims@, r_dims@, axis as int) ==> res == Err::<
            CatParams,
            Error,
        >(Error::ShapeMismatch),
        res matches Ok(p) ==> {
            let l = l_dims@;
            let r = r_dims@;
            let n = l.len() as int;
            &&& p.dst_dims@ == l.update(axis as int, (l[axis as int] + r[axis as int]) as usize)
            &&& p.d1 == prod(l.subrange(0, axis as int))
            &&& p.d2_l == prod(l.subrange(axis as int, n))
            &&& p.d2_r == prod(r.subrange(axis as int, n))
            &&& p.d2_lr == p.d2_l + p.d2_r
        },
{
    let n = l_dims.len();
    if axis >= n {
        return Err(Error::DimOutOfRange { dim: axis, rank: n });
    }
    if n != r_dims.len() {
        return Err(Error::ShapeMismatch);
    }
    let mut i: usize = 0;
    while i < n
        invariant
            n == l_dims@.len(),
            n == r_dims@.len(),
            axis < n,
            i <= n,
            forall|k: int| 0 <= k < i && k != axis ==> #[trigger] l_dims@[k] == r_dims@[k],
        decreases n - i,
    {
        if axis != i && l_dims[i] != r_dims[i] {
            assert(!cat_shapes_agree(l_dims@, r_dims@, axis as int));
            return Err(Error::ShapeMismatch);
        }
        i += 1;
    }
    let mut dst_dims = crate::shape::copy_dims(l_dims);
    dst_dims.set(axis, l_dims[axis] + r_dims[axis]);
    let d1 = prod_range(l_dims, 0, axis);
    let d2_l = prod_range(l_dims, axis, n);
    let d2_r = prod_range(r_dims, axis, n);
    let d2_lr = d2_l + d2_r;
    Ok(CatParams { dst_dims, d1, d2_l, d2_r, d2_lr })
}

/// The parameters of a softmax over the last dimension: the number of
/// elements, the length of a row, and the number of rows.
pub fn softmax_params(dims: &Vec<usize>) -> (r: (usize, usize, usize))
    requires
        shape_fits(dims@),
        dims@.len() >= 1,
        dims@.last() != 0,
    ensures
        r.0 == prod(dims@),
        r.1 == dims@.last(),
        r.2 == prod(dims@) / (dims@.last() as nat),
{
    let rank = dims.len();
    let dim_m1 = dims[rank - 1];
    let num_elements = crate::shape::num_elements(dims);
    let n_rows = num_elements / dim_m1;
    (num_elements, dim_m1, n_rows)
}

/// The parameters of a causal mask over a `(b, h, s1, s2)` tensor: the number
/// of elements, `s1`, `s2`, and the number of `s1 x s2` matrices.
pub fn causal_mask_params(dims: &Vec<usize>) -> (r: Result<(usize, usize, usize, usize), Error>)
    requires
        shape_fits(dims@),
        dims@.len() == 4 ==> dims@[2] * dims@[3] != 0,
    ensures
        r is Ok <==> dims@.len() == 4,
        r is Err ==> r == Err::<(usize, usize, usize, usize), Error>(
            Error::RankMismatch { lhs: dims@.len() as usize, rhs: 4 },
        ),
        r matches Ok(t) ==> t.0 == prod(dims@) && t.1 == dims@[2] && t.2 == dims@[3] && t.3 == prod(
            dims@,
        ) / ((dims@[2] * dims@[3]) as nat),
{
    let (_b_sz, _num_heads, s1, s2) = dims4(dims)?;
    proof {
        lemma_prod4_parts(dims@);
    }
    let num_elements = crate::shape::num_elements(dims);
    let n_rows = num_elements / (s1 * s2);
    Ok((num_elements, s1, s2, n_rows))
}

/// The parameters of flash attention with queries of shape
/// `(b, heads, seq_len, head_dim)` and keys of shape `(_, _, kv_len, _)`:
/// `b * heads` as `u32`, `seq_len`, `head_dim` and `kv_len`.
pub fn flash_attention_params(q_dims: &Vec<usize>, k_dims: &Vec<usize>) -> (r: Result<
    (u32, usize, usize, usize),
    Error,
>)
    requires
        shape_fits(q_dims@),
    ensures
        r is Ok <==> q_dims@.len() == 4 && k_dims@.len() == 4,
        q_dims@.len() != 4 ==> r == Err::<(u32, usize, usize, usize), Error>(
            Error::RankMismatch { lhs: q_dims@.len() as usize, rhs: 4 },
        ),
        q_dims@.len() == 4 && k_dims@.len() != 4 ==> r == Err::<(u32, usize, usize, usize), Error>(
            Error::RankMismatch { lhs: k_dims@.len() as usize, rhs: 4 },
        ),
        r matches Ok(t) ==> t.0 == (q_dims@[0] * q_dims@[1]) as u32 && t.1 == q_dims@[2] && t.2
            == q_dims@[3] && t.3 == k_dims@[2],
{
    let (b_sz, num_heads, seq_len, head_dim) = dims4(q_dims)?;
    let (_, _, kv_len, _) = dims4(k_dims)?;
    proof {
        lemma_prod4_parts(q_dims@);
    }
    #[verifier::truncate]
    let batch_heads = (b_sz * num_heads) as u32;
    Ok((batch_heads, seq_len, head_dim, kv_len))
}

} // verus!
