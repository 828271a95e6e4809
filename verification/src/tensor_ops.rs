//! Tensor operations that build kernels: padding, gathering, scattering,
//! scans and arg-max, and the operations composed from lazy tensors.
use vstd::prelude::*;
use crate::block::{
    assign, bin, bin_c, end_of, global, load, range_to, select, store, Block,
};
use crate::kernel::Kernel;
use crate::lang::{
    A, BinaryOp as B, Const, DType, Error, Instr, ReduceOp, F32_NEG_INF_BITS, F32_ONE_BITS,
    product_int, spec_min_value, spec_zero,
};
use crate::lazy::{axis_sum, cat_fits, cat_shape, cat_valid, shape_agrees, LazyBuffer, LazyOp};
use crate::shape::{
    copy_dims, lemma_prod_at, lemma_prod_nz_update_le, nz, lemma_prod_from, lemma_prod_nz_subrange, lemma_prod_nz_update_one,
    prod, prod_nz, prod_range, shape_fits,
};

verus! {

/// The number of elements before dimension `dim`, taken together.
pub open spec fn outer_size(s: Seq<usize>, dim: int) -> usize {
    prod(s.subrange(0, dim)) as usize
}

/// The number of elements after dimension `dim`, taken together.
pub open spec fn inner_size(s: Seq<usize>, dim: int) -> usize {
    prod(s.subrange(dim + 1, s.len() as int)) as usize
}

/// Splits a shape around `dim` into the sizes before it, along it and after it.
fn axis_split(dims: &Vec<usize>, dim: usize) -> (r: (usize, usize, usize))
    requires
        dim < dims@.len(),
        shape_fits(dims@),
    ensures
        r.0 == outer_size(dims@, dim as int),
        r.1 == dims@[dim as int],
        r.2 == inner_size(dims@, dim as int),
        r.1 * r.2 <= usize::MAX,
        r.0 * (r.1 * r.2) == prod(dims@),
{
    let n = dims.len();
    let outer = prod_range(dims, 0, dim);
    let inner = prod_range(dims, dim + 1, n);
    proof {
        lemma_prod_from(dims@, dim as int);
        lemma_prod_at(dims@, dim as int);
        lemma_prod_nz_subrange(dims@, dim as int, dims@.len() as int);
    }
    (outer, dims[dim], inner)
}

/// A scan along one axis: an accumulator starts at `init` for each position
/// outside the axis, and for each step along the axis becomes
/// `acc op src[off]`, then is stored at `dst[off]`.
pub open spec fn scan_kernel(
    outer: usize,
    axis_len: usize,
    inner: usize,
    dtype: DType,
    init: Const,
    op: B,
) -> Seq<Instr> {
    seq![
        global(0, dtype),
        global(1, dtype),
        range_to(outer as i32, 16),
        range_to(inner as i32, 15),
        Instr::DefineAcc(init),
        range_to(axis_len as i32, 14),
        bin_c(B::Mul, 2, (axis_len * inner) as i32),
        bin_c(B::Mul, 5, inner as i32),
        bin(B::Add, 6, 7, DType::I32),
        bin(B::Add, 8, 3, DType::I32),
        load(0, 9, dtype),
        bin(op, 4, 10, dtype),
        assign(4, 11),
        store(1, 9, 4, dtype),
        end_of(5),
        end_of(3),
        end_of(2),
    ]
}

/// The kernel of `argmax`: for each position outside the axis, the first
/// index along the axis whose value is greater than all before it, starting
/// from the smallest value of the type.
pub open spec fn argmax_kernel(outer: usize, axis_len: usize, inner: usize, dtype: DType) -> Seq<
    Instr,
> {
    seq![
        global(0, dtype),
        global(1, DType::I32),
        range_to(outer as i32, 22),
        range_to(inner as i32, 21),
        Instr::DefineAcc(spec_min_value(dtype)),
        Instr::DefineAcc(Const::I32(0)),
        range_to(axis_len as i32, 17),
        bin_c(B::Mul, 2, (axis_len * inner) as i32),
        bin_c(B::Mul, 6, inner as i32),
        bin(B::Add, 7, 8, DType::I32),
        bin(B::Add, 9, 3, DType::I32),
        load(0, 10, dtype),
        bin(B::Gt, 11, 4, dtype),
        select(12, 11, 4, dtype),
        select(12, 6, 5, DType::I32),
        assign(4, 13),
        assign(5, 14),
        end_of(6),
        bin_c(B::Mul, 2, inner as i32),
        bin(B::Add, 18, 3, DType::I32),
        store(1, 19, 5, DType::I32),
        end_of(3),
        end_of(2),
    ]
}

fn build_scan(outer: usize, axis_len: usize, inner: usize, dtype: DType, init: Const, op: B) -> (r:
    Result<Kernel, Error>)
    requires
        axis_len * inner <= usize::MAX,
    ensures
        r is Ok,
        r matches Ok(k) ==> k@ == scan_kernel(outer, axis_len, inner, dtype, init, op),
{
    let mut b = Block::empty();
    let src = b.push(Instr::DefineGlobal { index: 0, dtype });
    let dst = b.push(Instr::DefineGlobal { index: 1, dtype });

    #[verifier::truncate]
    let outer_i = outer as i32;
    #[verifier::truncate]
    let inner_i = inner as i32;
    #[verifier::truncate]
    let axis_i = axis_len as i32;
    #[verifier::truncate]
    let stride_i = (axis_len * inner) as i32;

    let r_outer = b.range(0, outer_i, 1);
    let r_inner = b.range(0, inner_i, 1);

    let acc = b.push(Instr::DefineAcc(init));
    let r_axis = b.range(0, axis_i, 1);

    let off = b.mul(r_outer, stride_i);
    let tmp = b.mul(r_axis, inner_i);
    let off = b.binary(B::Add, off, tmp, DType::I32);
    let off = b.binary(B::Add, off, r_inner, DType::I32);

    let val = b.push(Instr::Load { src, offset: off.to_a(), dtype });
    let new_acc = b.binary(op, acc, val, dtype);
    b.push(Instr::Assign { dst: acc, src: new_acc.to_a() });
    b.push(Instr::Store { dst, offset: off.to_a(), value: acc.to_a(), dtype });

    b.end_range(r_axis);
    b.end_range(r_inner);
    b.end_range(r_outer);

    let instrs = b.into_instrs();
    assert(instrs@ =~= scan_kernel(outer, axis_len, inner, dtype, init, op));
    Kernel::from_instrs(instrs)
}

fn build_argmax(outer: usize, axis_len: usize, inner: usize, dtype: DType) -> (r: Result<
    Kernel,
    Error,
>)
    requires
        axis_len * inner <= usize::MAX,
    ensures
        r is Ok,
        r matches Ok(k) ==> k@ == argmax_kernel(outer, axis_len, inner, dtype),
{
    let mut b = Block::empty();
    let src = b.push(Instr::DefineGlobal { index: 0, dtype });
    let dst = b.push(Instr::DefineGlobal { index: 1, dtype: DType::I32 });

    #[verifier::truncate]
    let outer_i = outer as i32;
    #[verifier::truncate]
    let inner_i = inner as i32;
    #[verifier::truncate]
    let axis_i = axis_len as i32;
    #[verifier::truncate]
    let stride_i = (axis_len * inner) as i32;

    let r_outer = b.range(0, outer_i, 1);
    let r_inner = b.range(0, inner_i, 1);

    let best_val = b.push(Instr::DefineAcc(Const::min_value(dtype)));
    let best_idx = b.push(Instr::DefineAcc(Const::I32(0)));

    let r_axis = b.range(0, axis_i, 1);

    let off = b.mul(r_outer, stride_i);
    let tmp = b.mul(r_axis, inner_i);
    let off = b.binary(B::Add, off, tmp, DType::I32);
    let off = b.binary(B::Add, off, r_inner, DType::I32);

    let val = b.push(Instr::Load { src, offset: off.to_a(), dtype });
    let is_better = b.binary(B::Gt, val, best_val, dtype);
    let new_best_val = b.push(
        Instr::Where { cond: is_better.to_a(), on_true: val.to_a(), on_false: best_val.to_a(), dtype },
    );
    let new_best_idx = b.push(
        Instr::Where {
            cond: is_better.to_a(),
            on_true: r_axis.to_a(),
            on_false: best_idx.to_a(),
            dtype: DType::I32,
        },
    );
    b.push(Instr::Assign { dst: best_val, src: new_best_val.to_a() });
    b.push(Instr::Assign { dst: best_idx, src: new_best_idx.to_a() });

    b.end_range(r_axis);

    let dst_off = b.mul(r_outer, inner_i);
    let dst_off = b.binary(B::Add, dst_off, r_inner, DType::I32);
    b.push(Instr::Store { dst, offset: dst_off.to_a(), value: best_idx.to_a(), dtype: DType::I32 });

    b.end_range(r_inner);
    b.end_range(r_outer);

    let instrs = b.into_instrs();
    assert(instrs@ =~= argmax_kernel(outer, axis_len, inner, dtype));
    Kernel::from_instrs(instrs)
}

/// The multiplicative unit of a type, where the scan kernels support it.
pub open spec fn spec_one(dtype: DType) -> Option<Const> {
    match dtype {
        DType::F32 => Some(Const::F32(F32_ONE_BITS)),
        DType::I32 => Some(Const::I32(1)),
        DType::I64 => Some(Const::I64(1)),
        _ => None,
    }
}

/// The unit of each type the scan kernels support is of that type and is its
/// multiplicative identity: multiplying any integer of the type by it gives
/// that integer back; for `f32` it is `1.0` (sign clear, exponent `127`,
/// fraction zero).
pub proof fn law_one_is_unit(d: DType)
    ensures
        spec_one(d) is Some <==> (d == DType::F32 || d == DType::I32 || d == DType::I64),
        spec_one(d) matches Some(c) ==> crate::lang::spec_const_dtype(c) == d,
        spec_one(d) matches Some(Const::I32(o)) ==> forall|x: i32| #[trigger] product_int(x as int, o as int) == x,
        spec_one(d) matches Some(Const::I64(o)) ==> forall|x: i64| #[trigger] product_int(x as int, o as int) == x,
        spec_one(d) matches Some(Const::F32(b)) ==> b >> 31u32 == 0 && (b >> 23u32) & 0xffu32 == 127 && b
            & 0x7f_ffffu32 == 0,
{
    let b = F32_ONE_BITS;
    assert(b >> 31u32 == 0 && (b >> 23u32) & 0xffu32 == 127 && b & 0x7f_ffffu32 == 0) by (bit_vector)
        requires
            b == 0x3f80_0000u32,
    ;
}

/// The single-element argument list `[x]`.
fn one_arg(x: &LazyBuffer) -> (v: Vec<LazyBuffer>)
    ensures
        v@ == seq![*x],
{
    let mut v: Vec<LazyBuffer> = Vec::new();
    v.push(x.clone());
    assert(v@ =~= seq![*x]);
    v
}

impl LazyBuffer {
    /// Cumulative sums along `dim`.
    pub fn cumsum(&self, dim: usize) -> (r: Result<LazyBuffer, Error>)
        ensures
            r is Ok <==> dim < self.shape_view().len(),
            r is Err ==> r == Err::<LazyBuffer, Error>(
                Error::DimOutOfRange { dim, rank: self.shape_view().len() as usize },
            ),
            r matches Ok(b) ==> {
                let s = self.shape_view();
                &&& b.shape_view() == s
                &&& b.dtype_view() == self.dtype_view()
                &&& b.op_view() matches LazyOp::Ssa(k, args)
                &&& k@ == scan_kernel(
                    outer_size(s, dim as int),
                    s[dim as int],
                    inner_size(s, dim as int),
                    self.dtype_view(),
                    spec_zero(self.dtype_view()),
                    B::Add,
                )
                &&& args@ == seq![*self]
            },
    {
        let dims = self.dims();
        if dim >= dims.len() {
            return Err(Error::DimOutOfRange { dim, rank: dims.len() });
        }
        let dtype = self.dtype();
        let (outer, axis_len, inner) = axis_split(dims, dim);
        let ssa = build_scan(outer, axis_len, inner, dtype, Const::zero(dtype), B::Add)?;
        Ok(Self::ssa(ssa, one_arg(self), copy_dims(dims), dtype))
    }

    /// Cumulative products along `dim`, for `f32`, `i32` and `i64` tensors.
    pub fn cumprod(&self, dim: usize) -> (r: Result<LazyBuffer, Error>)
        ensures
            r is Ok <==> dim < self.shape_view().len() && spec_one(self.dtype_view()) is Some,
            dim >= self.shape_view().len() ==> r == Err::<LazyBuffer, Error>(
                Error::DimOutOfRange { dim, rank: self.shape_view().len() as usize },
            ),
            dim < self.shape_view().len() && spec_one(self.dtype_view()) is None ==> r == Err::<
                LazyBuffer,
                Error,
            >(Error::UnsupportedDType(self.dtype_view())),
            r matches Ok(b) ==> {
                let s = self.shape_view();
                &&& b.shape_view() == s
                &&& b.dtype_view() == self.dtype_view()
                &&& b.op_view() matches LazyOp::Ssa(k, args)
                &&& k@ == scan_kernel(
                    outer_size(s, dim as int),
                    s[dim as int],
                    inner_size(s, dim as int),
                    self.dtype_view(),
                    spec_one(self.dtype_view())->0,
                    B::Mul,
                )
                &&& args@ == seq![*self]
            },
    {
        let dims = self.dims();
        if dim >= dims.len() {
            return Err(Error::DimOutOfRange { dim, rank: dims.len() });
        }
        let dtype = self.dtype();
        let (outer, axis_len, inner) = axis_split(dims, dim);

        let one = match dtype {
            DType::F32 => Const::F32(F32_ONE_BITS),
            DType::I32 => Const::I32(1),
            DType::I64 => Const::I64(1),
            dt => return Err(Error::UnsupportedDType(dt)),
        };
        let ssa = build_scan(outer, axis_len, inner, dtype, one, B::Mul)?;
        Ok(Self::ssa(ssa, one_arg(self), copy_dims(dims), dtype))
    }

    /// The index of the largest value along `dim`, as `i32`; the dimension
    /// is kept with size `1`.
    pub fn argmax(&self, dim: usize) -> (r: Result<LazyBuffer, Error>)
        ensures
            r is Ok <==> dim < self.shape_view().len(),
            r is Err ==> r == Err::<LazyBuffer, Error>(
                Error::DimOutOfRange { dim, rank: self.shape_view().len() as usize },
            ),
            r matches Ok(b) ==> {
                let s = self.shape_view();
                &&& b.shape_view() == s.update(dim as int, 1)
                &&& b.dtype_view() == DType::I32
                &&& b.op_view() matches LazyOp::Ssa(k, args)
                &&& k@ == argmax_kernel(
                    outer_size(s, dim as int),
                    s[dim as int],
                    inner_size(s, dim as int),
                    self.dtype_view(),
                )
                &&& args@ == seq![*self]
            },
    {
        let dims = self.dims();
        if dim >= dims.len() {
            return Err(Error::DimOutOfRange { dim, rank: dims.len() });
        }
        let dtype = self.dtype();
        let (outer, axis_len, inner) = axis_split(dims, dim);
        let mut dst_dims = copy_dims(dims);
        dst_dims.set(dim, 1);
        proof {
            lemma_prod_nz_update_one(dims@, dim as int);
        }
        let ssa = build_argmax(outer, axis_len, inner, dtype)?;
        Ok(Self::ssa(ssa, one_arg(self), dst_dims, DType::I32))
    }
}

/// The kernel of `pad`: for each position of the padded tensor, the element of
/// `src` it comes from when its coordinate along the padded axis lies in
/// `pad_before..pad_before + src_dim`, and `pad_val` cast to `dtype` otherwise.
pub open spec fn pad_kernel(
    outer: usize,
    src_dim: usize,
    dst_dim: usize,
    inner: usize,
    pad_before: usize,
    dtype: DType,
    pad_val: Const,
) -> Seq<Instr> {
    seq![
        global(0, dtype),
        global(1, dtype),
        range_to(outer as i32, 27),
        range_to(dst_dim as i32, 26),
        range_to(inner as i32, 25),
        bin_c(B::Mul, 2, (dst_dim * inner) as i32),
        bin_c(B::Add, 5, 0),
        bin_c(B::Mul, 3, inner as i32),
        bin(B::Add, 6, 7, DType::I32),
        bin(B::Add, 8, 4, DType::I32),
        crate::block::cst_i32(pad_before as i32),
        crate::block::cst_i32((pad_before + src_dim) as i32),
        bin(B::Ge, 3, 10, DType::I32),
        bin(B::Lt, 3, 11, DType::I32),
        bin(B::Mul, 12, 13, DType::I32),
        bin(B::Sub, 3, 10, DType::I32),
        bin_c(B::Mul, 2, (src_dim * inner) as i32),
        bin_c(B::Mul, 15, inner as i32),
        bin(B::Add, 16, 17, DType::I32),
        bin(B::Add, 18, 4, DType::I32),
        load(0, 19, dtype),
        Instr::Const(pad_val),
        crate::block::un(crate::lang::UnaryOp::Cast(dtype), 21, dtype),
        select(14, 20, 22, dtype),
        store(1, 9, 23, dtype),
        end_of(4),
        end_of(3),
        end_of(2),
    ]
}

/// The padded size along `dim` and the padded shape are representable.
pub open spec fn pad_fits(s: Seq<usize>, dim: int, pad_before: usize, pad_after: usize) -> bool {
    &&& s[dim] + pad_before + pad_after <= usize::MAX
    &&& shape_fits(s.update(dim, (s[dim] + pad_before + pad_after) as usize))
}

#[verifier::rlimit(60)]
fn build_pad(
    outer: usize,
    src_dim: usize,
    dst_dim: usize,
    inner: usize,
    pad_before: usize,
    dtype: DType,
    pad_val: Const,
) -> (r: Result<Kernel, Error>)
    requires
        dst_dim * inner <= usize::MAX,
        src_dim * inner <= usize::MAX,
        pad_before + src_dim <= usize::MAX,
    ensures
        r is Ok,
        r matches Ok(k) ==> k@ == pad_kernel(outer, src_dim, dst_dim, inner, pad_before, dtype, pad_val),
{
    #[verifier::truncate]
    let outer_i = outer as i32;
    #[verifier::truncate]
    let dst_dim_i = dst_dim as i32;
    #[verifier::truncate]
    let inner_i = inner as i32;
    #[verifier::truncate]
    let dst_stride_i = (dst_dim * inner) as i32;
    #[verifier::truncate]
    let src_stride_i = (src_dim * inner) as i32;
    #[verifier::truncate]
    let pad_before_i = pad_before as i32;
    #[verifier::truncate]
    let pad_end_i = (pad_before + src_dim) as i32;

    let mut b = Block::empty();
    let src = b.push(Instr::DefineGlobal { index: 0, dtype });
    let dst = b.push(Instr::DefineGlobal { index: 1, dtype });
    let r_outer = b.range(0, outer_i, 1);
    let r_dst_dim = b.range(0, dst_dim_i, 1);
    let r_inner = b.range(0, inner_i, 1);

    let dst_off = b.mul(r_outer, dst_stride_i);
    let dst_off = b.add(dst_off, 0);
    let tmp = b.mul(r_dst_dim, inner_i);
    let dst_off = b.binary(B::Add, dst_off, tmp, DType::I32);
    let dst_off = b.binary(B::Add, dst_off, r_inner, DType::I32);

    let pad_before_cst = b.cst(pad_before_i);
    let pad_end_cst = b.cst(pad_end_i);
    let in_range_lo = b.binary(B::Ge, r_dst_dim, pad_before_cst, DType::I32);
    let in_range_hi = b.binary(B::Lt, r_dst_dim, pad_end_cst, DType::I32);
    let in_range = b.binary(B::Mul, in_range_lo, in_range_hi, DType::I32);

    let src_idx = b.binary(B::Sub, r_dst_dim, pad_before_cst, DType::I32);
    let src_off = b.mul(r_outer, src_stride_i);
    let tmp = b.mul(src_idx, inner_i);
    let src_off = b.binary(B::Add, src_off, tmp, DType::I32);
    let src_off = b.binary(B::Add, src_off, r_inner, DType::I32);

    let load_val = b.push(Instr::Load { src, offset: src_off.to_a(), dtype });
    let pad_cst = b.push(Instr::Const(pad_val));
    let pad_cst = b.unary(crate::lang::UnaryOp::Cast(dtype), pad_cst, dtype);
    let result = b.push(
        Instr::Where {
            cond: in_range.to_a(),
            on_true: load_val.to_a(),
            on_false: pad_cst.to_a(),
            dtype,
        },
    );
    b.push(Instr::Store { dst, offset: dst_off.to_a(), value: result.to_a(), dtype });

    b.end_range(r_inner);
    b.end_range(r_dst_dim);
    b.end_range(r_outer);

    let instrs = b.into_instrs();
    assert(instrs@ =~= pad_kernel(outer, src_dim, dst_dim, inner, pad_before, dtype, pad_val));
    Kernel::from_instrs(instrs)
}

/// Step `j` of `topk`: `next` is `prev` (and of its shape) with its maxima
/// along `dim` replaced by minus infinity, that is
/// `where(prev == broadcast(reduce_max(prev, dim)), broadcast(-inf), prev)`.
pub open spec fn topk_step(prev: LazyBuffer, next: LazyBuffer, dim: usize) -> bool {
    &&& next.shape_view() == prev.shape_view()
    &&& next.op_view() matches LazyOp::Where(c, n, p)
    &&& p == prev
    &&& c.op_view() matches LazyOp::Binary(B::Eq, a, mb)
    &&& a == prev
    &&& mb.op_view() matches LazyOp::Broadcast(m)
    &&& m.op_view() == LazyOp::Reduce(ReduceOp::Max, dim, prev)
    &&& n.op_view() matches LazyOp::Broadcast(ci)
    &&& ci.op_view() == LazyOp::Cst(Const::F32(F32_NEG_INF_BITS))
}

/// `srcs` starts at `x` and follows `topk_step`.
pub open spec fn topk_chain(srcs: Seq<LazyBuffer>, x: LazyBuffer, dim: usize) -> bool {
    &&& srcs.len() >= 1
    &&& srcs[0] == x
    &&& forall|j: int| #![trigger srcs[j]] 1 <= j < srcs.len() ==> topk_step(srcs[j - 1], srcs[j], dim)
}

/// Each result is the maximum along `dim` of the matching source.
pub open spec fn topk_results(results: Seq<LazyBuffer>, srcs: Seq<LazyBuffer>, dim: usize) -> bool {
    &&& results.len() == srcs.len()
    &&& forall|j: int|
        0 <= j < results.len() ==> #[trigger] results[j].op_view() == LazyOp::Reduce(
            ReduceOp::Max,
            dim,
            srcs[j],
        )
}

/// `b` concatenates along `dim` the maxima of `count` successive sources
/// of the `topk` chain from `x`.
pub open spec fn topk_cat(b: LazyBuffer, x: LazyBuffer, dim: usize, count: nat) -> bool {
    &&& b.op_view() matches LazyOp::Cat(v, d)
    &&& d == dim
    &&& v@.len() == count
    &&& exists|srcs: Seq<LazyBuffer>|
        #![trigger topk_chain(srcs, x, dim)]
        topk_chain(srcs, x, dim) && topk_results(v@, srcs, dim)
}

/// Shape `s` with every dimension `t >= k` that `mask` marks set to `1`.
pub open spec fn masked_shape(s: Seq<usize>, mask: Seq<bool>, k: int) -> Seq<usize> {
    Seq::new(s.len(), |t: int| if t >= k && t < mask.len() && mask[t] { 1usize } else { s[t] })
}

/// The result of reducing `x` with `op` along each dimension `d >= k` with
/// `mask[d]`, from the last such dimension down; every step keeps the type
/// of `x` and has size `1` along the dimensions reduced so far.
pub open spec fn reduce_chain(r: LazyBuffer, x: LazyBuffer, op: ReduceOp, mask: Seq<bool>, k: int) -> bool
    decreases mask.len() - k,
{
    if k >= mask.len() {
        r == x
    } else if k < 0 {
        false
    } else {
        &&& r.dtype_view() == x.dtype_view()
        &&& r.shape_view() == masked_shape(x.shape_view(), mask, k)
        &&& if mask[k] {
            r.op_view() matches LazyOp::Reduce(op2, d, inner) && op2 == op && d == k
                && reduce_chain(inner, x, op, mask, k + 1)
        } else {
            reduce_chain(r, x, op, mask, k + 1)
        }
    }
}

/// What a successful `reduce_dims` of `x` with `op` over the list `dims`
/// gives: the type of `x`, size `1` along every listed dimension, and the
/// reductions along the listed dimensions, from the last one down.
pub open spec fn reduce_dims_result(b: LazyBuffer, x: LazyBuffer, op: ReduceOp, dims: Seq<usize>) -> bool {
    let n = x.shape_view().len();
    let mask = Seq::new(n, |d: int| dims.contains(d as usize));
    &&& b.dtype_view() == x.dtype_view()
    &&& b.shape_view() == Seq::new(n, |d: int| if mask[d] { 1usize } else { x.shape_view()[d] })
    &&& reduce_chain(b, x, op, mask, 0)
}

/// `r1` and `r2` are the same chain of reductions of `x`: at every step the
/// same shape and type, the same operation along the same dimension, and at
/// the bottom `x` itself.
pub open spec fn same_reductions(
    r1: LazyBuffer,
    r2: LazyBuffer,
    x: LazyBuffer,
    mask: Seq<bool>,
    k: int,
) -> bool
    decreases mask.len() - k,
{
    if k >= mask.len() {
        r1 == x && r2 == x
    } else if k < 0 {
        false
    } else {
        &&& r1.shape_view() == r2.shape_view()
        &&& r1.dtype_view() == r2.dtype_view()
        &&& if mask[k] {
            &&& r1.op_view() matches LazyOp::Reduce(o1, d1, i1)
            &&& r2.op_view() matches LazyOp::Reduce(o2, d2, i2)
            &&& o1 == o2
            &&& d1 == d2
            &&& same_reductions(i1, i2, x, mask, k + 1)
        } else {
            same_reductions(r1, r2, x, mask, k + 1)
        }
    }
}

/// Two chains of reductions of `x` with the same operation and the same
/// marked dimensions are the same chain.
pub proof fn lemma_reduce_chain_same(
    r1: LazyBuffer,
    r2: LazyBuffer,
    x: LazyBuffer,
    op: ReduceOp,
    mask: Seq<bool>,
    k: int,
)
    requires
        0 <= k,
        reduce_chain(r1, x, op, mask, k),
        reduce_chain(r2, x, op, mask, k),
    ensures
        same_reductions(r1, r2, x, mask, k),
    decreases mask.len() - k,
{
    if k < mask.len() {
        if mask[k] {
            let i1 = r1.op_view()->Reduce_2;
            let i2 = r2.op_view()->Reduce_2;
            lemma_reduce_chain_same(i1, i2, x, op, mask, k + 1);
        } else {
            lemma_reduce_chain_same(r1, r2, x, op, mask, k + 1);
        }
    }
}

/// `reduce_dims` over two lists that hold the same dimensions, in any order
/// and with any repetitions, builds the same computation: results of the same
/// shape and type that reduce the same dimensions in the same order, down to
/// the input itself.
pub proof fn law_reduce_dims_same_set(
    x: LazyBuffer,
    op: ReduceOp,
    dims1: Seq<usize>,
    dims2: Seq<usize>,
    b1: LazyBuffer,
    b2: LazyBuffer,
)
    requires
        forall|d: usize| dims1.contains(d) <==> dims2.contains(d),
        reduce_dims_result(b1, x, op, dims1),
        reduce_dims_result(b2, x, op, dims2),
    ensures
        b1.shape_view() == b2.shape_view(),
        b1.dtype_view() == b2.dtype_view(),
        same_reductions(
            b1,
            b2,
            x,
            Seq::new(x.shape_view().len(), |d: int| dims1.contains(d as usize)),
            0,
        ),
{
    let n = x.shape_view().len();
    law_reduce_dims_mask_depends_on_set(dims1, dims2, n);
    let mask = Seq::new(n, |d: int| dims1.contains(d as usize));
    lemma_reduce_chain_same(b1, b2, x, op, mask, 0);
}

/// With no dimension marked, the chain of reductions is the tensor itself.
pub proof fn law_reduce_chain_unmarked(r: LazyBuffer, x: LazyBuffer, op: ReduceOp, mask: Seq<bool>, k: int)
    requires
        0 <= k,
        forall|d: int| 0 <= d < mask.len() ==> !#[trigger] mask[d],
        reduce_chain(r, x, op, mask, k),
    ensures
        r == x,
    decreases mask.len() - k,
{
    if k < mask.len() {
        law_reduce_chain_unmarked(r, x, op, mask, k + 1);
    }
}

/// The dimensions `reduce_dims` reduces depend only on which values the list
/// holds, not on their order or repetitions.
pub proof fn law_reduce_dims_mask_depends_on_set(dims1: Seq<usize>, dims2: Seq<usize>, n: nat)
    requires
        forall|d: usize| dims1.contains(d) <==> dims2.contains(d),
    ensures
        Seq::new(n, |d: int| dims1.contains(d as usize)) == Seq::new(
            n,
            |d: int| dims2.contains(d as usize),
        ),
{
    assert(Seq::new(n, |d: int| dims1.contains(d as usize)) =~= Seq::new(
        n,
        |d: int| dims2.contains(d as usize),
    ));
}

/// The stride of dimension `i` in a row-major layout of shape `s`.
pub open spec fn stride(s: Seq<usize>, i: int) -> usize {
    prod(s.subrange(i + 1, s.len() as int)) as usize
}

/// The row-major strides of shape `s`.
pub open spec fn strides(s: Seq<usize>) -> Seq<usize> {
    Seq::new(s.len(), |i: int| stride(s, i))
}

fn strides_of(dims: &Vec<usize>) -> (r: Vec<usize>)
    requires
        shape_fits(dims@),
    ensures
        r@ == strides(dims@),
{
    let n = dims.len();
    let mut st: Vec<usize> = vec![0usize; n];
    let mut s: usize = 1;
    let mut i: usize = n;
    assert(dims@.subrange(n as int, n as int) =~= Seq::<usize>::empty());
    while i > 0
        invariant
            n == dims@.len(),
            st@.len() == n,
            i <= n,
            shape_fits(dims@),
            s == prod(dims@.subrange(i as int, n as int)),
            forall|k: int| i <= k < n ==> st@[k] == stride(dims@, k),
        decreases i,
    {
        i -= 1;
        st.set(i, s);
        proof {
            lemma_prod_from(dims@, i as int);
            lemma_prod_nz_subrange(dims@, i as int, n as int);
            let a = s as nat;
            let d = dims@[i as int] as nat;
            assert(a * d == d * a) by (nonlinear_arith);
        }
        s = s * dims[i];
    }
    assert(st@ =~= strides(dims@));
    st
}

/// The number of instructions of an offset computation over `rank` dimensions.
pub open spec fn offsets_len(rank: int) -> int {
    if rank <= 0 {
        0
    } else {
        7 * rank - 4
    }
}

/// The variable that holds the finished offset.
pub open spec fn final_acc(p0: int, acc0: int, rank: int) -> int {
    if rank <= 0 {
        acc0
    } else {
        p0 + 7 * (rank - 1) + 2
    }
}

/// Variable holding the remaining flat index before step `i` of an offset
/// computation that starts at instruction `p0`.
pub open spec fn rem_at(p0: int, rem0: int, i: int) -> int {
    if i == 0 {
        rem0
    } else {
        p0 + 7 * (i - 1) + 3
    }
}

/// Variable holding the offset accumulated before step `i`.
pub open spec fn acc_at(p0: int, acc0: int, i: int) -> int {
    if i == 0 {
        acc0
    } else {
        p0 + 7 * (i - 1) + 6
    }
}

/// Step `i` of turning a flat index (over a shape with strides `strides_a`)
/// into an offset (over a layout with strides `strides_b`): the coordinate
/// along dimension `i` is split off the remaining index (the last one is the
/// remainder itself), replaced by the loaded index when `i == dim`, and its
/// product with `strides_b[i]` is added to the offset.
pub open spec fn offset_iter(
    p0: int,
    rem0: int,
    acc0: int,
    idx_val: int,
    i: int,
    rank: int,
    dim: int,
    strides_a: Seq<usize>,
    strides_b: Seq<usize>,
) -> Seq<Instr> {
    let p = p0 + 7 * i;
    let rem = rem_at(p0, rem0, i);
    let acc = acc_at(p0, acc0, i);
    if i + 1 < rank {
        let dc = if i == dim {
            idx_val
        } else {
            p + 1
        };
        seq![
            crate::block::cst_i32(strides_a[i] as i32),
            bin(B::Div, rem, p, DType::I32),
            bin(B::Mul, p + 1, p, DType::I32),
            bin(B::Sub, rem, p + 2, DType::I32),
            crate::block::cst_i32(strides_b[i] as i32),
            bin(B::Mul, dc, p + 4, DType::I32),
            bin(B::Add, acc, p + 5, DType::I32),
        ]
    } else {
        let dc = if i == dim {
            idx_val
        } else {
            rem
        };
        seq![
            crate::block::cst_i32(strides_b[i] as i32),
            bin(B::Mul, dc, p, DType::I32),
            bin(B::Add, acc, p + 1, DType::I32),
        ]
    }
}

/// Steps `0..k` of the offset computation.
pub open spec fn offset_iters(
    k: int,
    p0: int,
    rem0: int,
    acc0: int,
    idx_val: int,
    rank: int,
    dim: int,
    strides_a: Seq<usize>,
    strides_b: Seq<usize>,
) -> Seq<Instr>
    decreases k,
{
    if k <= 0 {
        seq![]
    } else {
        offset_iters(k - 1, p0, rem0, acc0, idx_val, rank, dim, strides_a, strides_b)
            + offset_iter(p0, rem0, acc0, idx_val, k - 1, rank, dim, strides_a, strides_b)
    }
}

fn emit_offset(
    b: &mut Block,
    rem0: crate::lang::VarId,
    acc0: crate::lang::VarId,
    idx_val: crate::lang::VarId,
    dim: usize,
    strides_a: &Vec<usize>,
    strides_b: &Vec<usize>,
) -> (acc: crate::lang::VarId)
    requires
        crate::ssa::wf(old(b)@),
        rem0.0 < old(b)@.len(),
        acc0.0 < old(b)@.len(),
        idx_val.0 < old(b)@.len(),
        strides_b@.len() >= strides_a@.len(),
    ensures
        crate::ssa::wf(final(b)@),
        final(b)@ == old(b)@ + offset_iters(
            strides_a@.len() as int,
            old(b)@.len() as int,
            rem0.0 as int,
            acc0.0 as int,
            idx_val.0 as int,
            strides_a@.len() as int,
            dim as int,
            strides_a@,
            strides_b@,
        ),
        acc.0 == final_acc(old(b)@.len() as int, acc0.0 as int, strides_a@.len() as int),
        final(b)@.len() == old(b)@.len() + offsets_len(strides_a@.len() as int),
{
    let ghost s0 = b@;
    let ghost p0 = s0.len() as int;
    let rank = strides_a.len();
    let mut acc = acc0;
    let mut remaining = rem0;
    let mut i: usize = 0;
    while i < rank
        invariant
            rank == strides_a@.len(),
            strides_b@.len() >= rank,
            i <= rank,
            p0 == s0.len(),
            rem0.0 < p0,
            acc0.0 < p0,
            idx_val.0 < p0,
            crate::ssa::wf(b@),
            b@ == s0 + offset_iters(
                i as int,
                p0,
                rem0.0 as int,
                acc0.0 as int,
                idx_val.0 as int,
                rank as int,
                dim as int,
                strides_a@,
                strides_b@,
            ),
            i < rank ==> b@.len() == p0 + 7 * i,
            i < rank ==> acc.0 == acc_at(p0, acc0.0 as int, i as int),
            i < rank ==> remaining.0 == rem_at(p0, rem0.0 as int, i as int),
            i == rank ==> acc.0 == final_acc(p0, acc0.0 as int, rank as int),
            i == rank ==> b@.len() == p0 + offsets_len(rank as int),
        decreases rank - i,
    {
        let ghost before = b@;
        let coord = if i + 1 < rank {
            #[verifier::truncate]
            let sa = strides_a[i] as i32;
            let stride_cst = b.cst(sa);
            let c = b.binary(B::Div, remaining, stride_cst, DType::I32);
            let used = b.binary(B::Mul, c, stride_cst, DType::I32);
            remaining = b.binary(B::Sub, remaining, used, DType::I32);
            c
        } else {
            remaining
        };
        let dim_coord = if i == dim {
            idx_val
        } else {
            coord
        };
        #[verifier::truncate]
        let sb = strides_b[i] as i32;
        let s = b.cst(sb);
        let off = b.binary(B::Mul, dim_coord, s, DType::I32);
        acc = b.binary(B::Add, acc, off, DType::I32);
        assert(b@ =~= before + offset_iter(
            p0,
            rem0.0 as int,
            acc0.0 as int,
            idx_val.0 as int,
            i as int,
            rank as int,
            dim as int,
            strides_a@,
            strides_b@,
        ));
        i += 1;
    }
    acc
}

/// The kernel of `gather`: for each flat index `r` over the index tensor,
/// `dst[r] = src[off]`, where `off` is the offset in `src` of the coordinates
/// of `r`, with the coordinate along `dim` replaced by `idx[r]`.
pub open spec fn gather_kernel(
    src_dims: Seq<usize>,
    idx_dims: Seq<usize>,
    dim: int,
    dtype: DType,
) -> Seq<Instr> {
    let r = idx_dims.len() as int;
    let m = 6 + offsets_len(r);
    seq![
        global(0, dtype),
        global(1, DType::I32),
        global(2, dtype),
        range_to((prod(idx_dims) as usize) as i32, m + 2),
        load(1, 3, DType::I32),
        crate::block::cst_i32(0),
    ] + offset_iters(r, 6, 3, 5, 4, r, dim, strides(idx_dims), strides(src_dims)) + seq![
        load(0, final_acc(6, 5, r), dtype),
        store(2, 3, m, dtype),
        end_of(3),
    ]
}

/// The kernel of `scatter`: first `dst = self`, then for each flat index `r`
/// over the index tensor, `dst[off] = src[r]`, where `off` is the offset in
/// `dst` of the coordinates of `r`, with the coordinate along `dim` replaced
/// by `idx[r]`.
pub open spec fn scatter_kernel(
    dst_dims: Seq<usize>,
    idx_dims: Seq<usize>,
    dim: int,
    dtype: DType,
) -> Seq<Instr> {
    let r = idx_dims.len() as int;
    let m = 12 + offsets_len(r);
    seq![
        global(0, dtype),
        global(1, DType::I32),
        global(2, dtype),
        global(3, dtype),
        range_to((prod(dst_dims) as usize) as i32, 7),
        load(0, 4, dtype),
        store(3, 4, 5, dtype),
        end_of(4),
        range_to((prod(idx_dims) as usize) as i32, m + 1),
        load(1, 8, DType::I32),
        load(2, 8, dtype),
        crate::block::cst_i32(0),
    ] + offset_iters(r, 12, 8, 11, 9, r, dim, strides(idx_dims), strides(dst_dims)) + seq![
        store(3, final_acc(12, 11, r), 10, dtype),
        end_of(8),
    ]
}

impl LazyBuffer {
    /// Picks, along `dim`, the elements of `self` named by `indices`: the
    /// result has the shape of `indices`, and holds at each position the
    /// element of `self` at the same coordinates, with the coordinate along
    /// `dim` replaced by the index found there.
    pub fn gather(&self, indices: &LazyBuffer, dim: usize) -> (r: Result<LazyBuffer, Error>)
        ensures
            r is Ok <==> self.shape_view().len() == indices.shape_view().len() && dim
                < self.shape_view().len(),
            self.shape_view().len() != indices.shape_view().len() ==> r == Err::<LazyBuffer, Error>(
                Error::RankMismatch {
                    lhs: self.shape_view().len() as usize,
                    rhs: indices.shape_view().len() as usize,
                },
            ),
            self.shape_view().len() == indices.shape_view().len() && dim >= self.shape_view().len()
                ==> r == Err::<LazyBuffer, Error>(
                Error::DimOutOfRange { dim, rank: self.shape_view().len() as usize },
            ),
            r matches Ok(b) ==> {
                &&& b.shape_view() == indices.shape_view()
                &&& b.dtype_view() == self.dtype_view()
                &&& b.op_view() matches LazyOp::Ssa(k, args)
                &&& k@ == gather_kernel(
                    self.shape_view(),
                    indices.shape_view(),
                    dim as int,
                    self.dtype_view(),
                )
                &&& args@ == seq![*self, *indices]
            },
    {
        let src_dims = self.dims();
        let idx_dims = indices.dims();
        if src_dims.len() != idx_dims.len() {
            return Err(Error::RankMismatch { lhs: src_dims.len(), rhs: idx_dims.len() });
        }
        if dim >= src_dims.len() {
            return Err(Error::DimOutOfRange { dim, rank: src_dims.len() });
        }
        let dtype = self.dtype();
        let total_elems = crate::shape::num_elements(idx_dims);

        let strides_src = strides_of(src_dims);
        let strides_idx = strides_of(idx_dims);

        let mut b = Block::empty();
        let src = b.push(Instr::DefineGlobal { index: 0, dtype });
        let idx = b.push(Instr::DefineGlobal { index: 1, dtype: DType::I32 });
        let dst_buf = b.push(Instr::DefineGlobal { index: 2, dtype });

        #[verifier::truncate]
        let total_i = total_elems as i32;
        let r = b.range(0, total_i, 1);
        let idx_val = b.push(Instr::Load { src: idx, offset: r.to_a(), dtype: DType::I32 });

        let src_off = b.cst(0i32);
        let src_off = emit_offset(&mut b, r, src_off, idx_val, dim, &strides_idx, &strides_src);

        let val = b.push(Instr::Load { src, offset: src_off.to_a(), dtype });
        b.push(Instr::Store { dst: dst_buf, offset: r.to_a(), value: val.to_a(), dtype });
        b.end_range(r);

        let instrs = b.into_instrs();
        assert(instrs@ =~= gather_kernel(src_dims@, idx_dims@, dim as int, dtype));
        let ssa = Kernel::from_instrs(instrs)?;
        let mut args: Vec<LazyBuffer> = Vec::new();
        args.push(self.clone());
        args.push(indices.clone());
        assert(args@ =~= seq![*self, *indices]);
        Ok(Self::ssa(ssa, args, copy_dims(idx_dims), dtype))
    }

    /// Writes the elements of `src_vals` into a copy of `self`, along `dim`
    /// at the positions named by `indices`; `indices` and `src_vals` have the
    /// same shape.
    pub fn scatter(&self, indices: &LazyBuffer, src_vals: &LazyBuffer, dim: usize) -> (r: Result<
        LazyBuffer,
        Error,
    >)
        requires
            indices.shape_view() == src_vals.shape_view() && dim < self.shape_view().len()
                ==> indices.shape_view().len() <= self.shape_view().len(),
        ensures
            r is Ok <==> indices.shape_view() == src_vals.shape_view() && dim
                < self.shape_view().len(),
            indices.shape_view() != src_vals.shape_view() ==> r == Err::<LazyBuffer, Error>(
                Error::ShapeMismatch,
            ),
            indices.shape_view() == src_vals.shape_view() && dim >= self.shape_view().len() ==> r
                == Err::<LazyBuffer, Error>(
                Error::DimOutOfRange { dim, rank: self.shape_view().len() as usize },
            ),
            r matches Ok(b) ==> {
                &&& b.shape_view() == self.shape_view()
                &&& b.dtype_view() == self.dtype_view()
                &&& b.op_view() matches LazyOp::Ssa(k, args)
                &&& k@ == scatter_kernel(
                    self.shape_view(),
                    indices.shape_view(),
                    dim as int,
                    self.dtype_view(),
                )
                &&& args@ == seq![*self, *indices, *src_vals]
            },
    {
        let dst_dims = self.dims();
        let idx_dims = indices.dims();
        let src_dims = src_vals.dims();
        if !crate::shape::dims_eq(idx_dims, src_dims) {
            return Err(Error::ShapeMismatch);
        }
        if dim >= dst_dims.len() {
            return Err(Error::DimOutOfRange { dim, rank: dst_dims.len() });
        }
        let dtype = self.dtype();
        let total_dst = crate::shape::num_elements(dst_dims);
        let total_idx = crate::shape::num_elements(idx_dims);

        let strides_dst = strides_of(dst_dims);
        let strides_idx = strides_of(idx_dims);

        let mut b = Block::empty();
        let self_buf = b.push(Instr::DefineGlobal { index: 0, dtype });
        let idx_buf = b.push(Instr::DefineGlobal { index: 1, dtype: DType::I32 });
        let src_buf = b.push(Instr::DefineGlobal { index: 2, dtype });
        let dst_buf = b.push(Instr::DefineGlobal { index: 3, dtype });

        // Copy self to dst
        #[verifier::truncate]
        let total_dst_i = total_dst as i32;
        let r_copy = b.range(0, total_dst_i, 1);
        let v = b.push(Instr::Load { src: self_buf, offset: r_copy.to_a(), dtype });
        b.push(Instr::Store { dst: dst_buf, offset: r_copy.to_a(), value: v.to_a(), dtype });
        b.end_range(r_copy);

        // Scatter src into dst at index positions
        #[verifier::truncate]
        let total_idx_i = total_idx as i32;
        let r = b.range(0, total_idx_i, 1);
        let idx_val = b.push(Instr::Load { src: idx_buf, offset: r.to_a(), dtype: DType::I32 });
        let src_val = b.push(Instr::Load { src: src_buf, offset: r.to_a(), dtype });

        let dst_off = b.cst(0i32);
        let dst_off = emit_offset(&mut b, r, dst_off, idx_val, dim, &strides_idx, &strides_dst);

        b.push(Instr::Store { dst: dst_buf, offset: dst_off.to_a(), value: src_val.to_a(), dtype });
        b.end_range(r);

        let instrs = b.into_instrs();
        assert(instrs@ =~= scatter_kernel(dst_dims@, idx_dims@, dim as int, dtype));
        let ssa = Kernel::from_instrs(instrs)?;
        let mut args: Vec<LazyBuffer> = Vec::new();
        args.push(self.clone());
        args.push(indices.clone());
        args.push(src_vals.clone());
        assert(args@ =~= seq![*self, *indices, *src_vals]);
        Ok(Self::ssa(ssa, args, copy_dims(dst_dims), dtype))
    }

    /// Pads dimension `dim` with `pad_before` values before and `pad_after`
    /// values after, all equal to `pad_val`.
    pub fn pad(&self, dim: usize, pad_before: usize, pad_after: usize, pad_val: Const) -> (r: Result<
        LazyBuffer,
        Error,
    >)
        requires
            dim < self.shape_view().len() ==> pad_fits(
                self.shape_view(),
                dim as int,
                pad_before,
                pad_after,
            ),
        ensures
            r is Ok <==> dim < self.shape_view().len(),
            r is Err ==> r == Err::<LazyBuffer, Error>(
                Error::DimOutOfRange { dim, rank: self.shape_view().len() as usize },
            ),
            r matches Ok(b) ==> {
                let s = self.shape_view();
                let dst_dim = (s[dim as int] + pad_before + pad_after) as usize;
                &&& b.shape_view() == s.update(dim as int, dst_dim)
                &&& b.dtype_view() == self.dtype_view()
                &&& b.op_view() matches LazyOp::Ssa(k, args)
                &&& k@ == pad_kernel(
                    outer_size(s, dim as int),
                    s[dim as int],
                    dst_dim,
                    inner_size(s, dim as int),
                    pad_before,
                    self.dtype_view(),
                    pad_val,
                )
                &&& args@ == seq![*self]
            },
    {
        let dims = self.dims();
        if dim >= dims.len() {
            return Err(Error::DimOutOfRange { dim, rank: dims.len() });
        }
        let (outer, src_dim, inner) = axis_split(dims, dim);
        let dst_dim = src_dim + pad_before + pad_after;
        let mut dst_dims = copy_dims(dims);
        dst_dims.set(dim, dst_dim);
        proof {
            let n = dims@.len() as int;
            let u = dst_dims@;
            lemma_prod_from(u, dim as int);
            lemma_prod_nz_subrange(u, dim as int, n);
            assert(u.subrange(dim + 1, n) =~= dims@.subrange(dim + 1, n));
            assert(u =~= dims@.update(dim as int, dst_dim));
            lemma_prod_nz_subrange(dims@, dim + 1, n);
            assert(prod(u.subrange(dim as int, n)) == (dst_dim as nat) * (inner as nat));
        }
        let dtype = self.dtype();
        let ssa = build_pad(outer, src_dim, dst_dim, inner, pad_before, dtype, pad_val)?;
        Ok(Self::ssa(ssa, one_arg(self), dst_dims, dtype))
    }

    /// The `k` largest values along `dim`, in decreasing order: the maximum,
    /// then the maximum once every occurrence of the previous one is replaced
    /// by minus infinity, and so on. For `k == 1` this is the maximum itself.
    pub fn topk(&self, dim: usize, k: usize) -> (r: Result<LazyBuffer, Error>)
        ensures
            r is Ok <==> dim < self.shape_view().len() && k <= self.shape_view()[dim as int],
            dim >= self.shape_view().len() ==> r == Err::<LazyBuffer, Error>(
                Error::DimOutOfRange { dim, rank: self.shape_view().len() as usize },
            ),
            dim < self.shape_view().len() && k > self.shape_view()[dim as int] ==> r == Err::<
                LazyBuffer,
                Error,
            >(Error::KTooLarge { k, len: self.shape_view()[dim as int] }),
            r matches Ok(b) ==> {
                &&& b.shape_view() == self.shape_view().update(
                    dim as int,
                    if k == 0 {
                        1
                    } else {
                        k
                    },
                )
                &&& b.dtype_view() == self.dtype_view()
                &&& k == 1 ==> b.op_view() == LazyOp::Reduce(ReduceOp::Max, dim, *self)
                &&& k != 1 ==> topk_cat(b, *self, dim, if k == 0 {
                    1nat
                } else {
                    k as nat
                })
            },
    {
        let dims = self.dims();
        if dim >= dims.len() {
            return Err(Error::DimOutOfRange { dim, rank: dims.len() });
        }
        if k > dims[dim] {
            return Err(Error::KTooLarge { k, len: dims[dim] });
        }
        let sorted = self.reduce(ReduceOp::Max, dim)?;
        if k == 1 {
            return Ok(sorted);
        }
        let ghost s = dims@;
        let ghost reduced = s.update(dim as int, 1);
        let mut results: Vec<LazyBuffer> = Vec::new();
        results.push(sorted);
        let mut src = self.clone();
        let ghost mut srcs: Seq<LazyBuffer> = seq![*self];
        let mut j: usize = 1;
        while j < k
            invariant
                1 <= j,
                j <= k || (k == 0 && j == 1),
                k <= s[dim as int],
                dim < s.len(),
                s == self.shape_view(),
                reduced == s.update(dim as int, 1),
                src.shape_view() == s,
                srcs.len() == j,
                srcs.last() == src,
                topk_chain(srcs, *self, dim),
                topk_results(results@, srcs, dim),
                forall|q: int| 0 <= q < results@.len() ==> #[trigger] results@[q].shape_view() == reduced,
                results@[0].dtype_view() == self.dtype_view(),
            decreases k - j,
        {
            let max_val = src.reduce(ReduceOp::Max, dim)?;
            let max_broadcast = max_val.broadcast(copy_dims(src.dims()))?;
            let is_max = src.binary(B::Eq, max_broadcast.clone())?;
            let neg_inf = Self::cst(Const::F32(F32_NEG_INF_BITS));
            let neg_inf = neg_inf.broadcast(copy_dims(src.dims()))?;
            let prev = src;
            src = is_max.where_(neg_inf, prev.clone())?;
            let next_max = src.reduce(ReduceOp::Max, dim)?;
            results.push(next_max);
            proof {
                let old_srcs = srcs;
                srcs = srcs.push(src);
                assert(topk_step(prev, src, dim));
                assert forall|q: int| #![trigger srcs[q]] 1 <= q < srcs.len() implies topk_step(
                    srcs[q - 1],
                    srcs[q],
                    dim,
                ) by {
                    if q < srcs.len() - 1 {
                        assert(old_srcs[q] == srcs[q]);
                        assert(old_srcs[q - 1] == srcs[q - 1]);
                    }
                }
            }
            j += 1;
        }
        let mut refs: Vec<&LazyBuffer> = Vec::new();
        let mut q: usize = 0;
        while q < results.len()
            invariant
                q <= results@.len(),
                refs@.len() == q,
                forall|t: int| 0 <= t < q ==> #[trigger] refs@[t] == results@[t],
            decreases results@.len() - q,
        {
            refs.push(&results[q]);
            q += 1;
        }
        proof {
            let n = results@.len() as int;
            assert forall|t: int| 0 <= t < n implies #[trigger] shape_agrees(refs@, dim as int, t) by {
                assert(refs@[t].shape_view() == reduced);
                assert(refs@[0].shape_view() == reduced);
            }
            lemma_axis_sum_ones(refs@, dim as int, n);
            lemma_prod_nz_update_le(s, dim as int, n as usize);
            assert(cat_shape(refs@, dim as int) =~= s.update(dim as int, n as usize));
        }
        Self::cat(refs.as_slice(), dim)
    }

    /// Reduces with `op` along every dimension listed in `dims` (each once,
    /// whatever its multiplicity), from the last of them down; each reduced
    /// dimension is kept with size `1`.
    pub fn reduce_dims(&self, op: ReduceOp, dims: &[usize]) -> (r: Result<LazyBuffer, Error>)
        ensures
            r is Ok <==> forall|i: int| 0 <= i < dims@.len() ==> #[trigger] dims@[i] < self.shape_view().len(),
            r matches Err(e) ==> e matches Error::DimOutOfRange { dim, rank } && rank
                == self.shape_view().len() && dims@.contains(dim) && dim >= rank && forall|i: int|
                0 <= i < dims@.len() && #[trigger] dims@[i] >= rank ==> dim <= dims@[i],
            r matches Ok(b) ==> reduce_dims_result(b, *self, op, dims@),
    {
        let rank = self.rank();
        let ghost s = self.shape_view();
        let ghost mask = Seq::new(rank as nat, |d: int| dims@.contains(d as usize));
        // The smallest listed dimension that is out of range, if any.
        let mut bad: Option<usize> = None;
        let ghost mut bad_at: int = 0;
        let mut i: usize = 0;
        while i < dims.len()
            invariant
                i <= dims@.len(),
                rank == s.len(),
                bad is None ==> forall|t: int| 0 <= t < i ==> #[trigger] dims@[t] < rank,
                bad matches Some(d) ==> d >= rank && 0 <= bad_at < i && dims@[bad_at] == d && forall|t: int|
                    0 <= t < i && #[trigger] dims@[t] >= rank ==> d <= dims@[t],
            decreases dims@.len() - i,
        {
            let d = dims[i];
            if d >= rank {
                match bad {
                    None => {
                        bad = Some(d);
                        proof {
                            bad_at = i as int;
                        }
                    },
                    Some(b) => {
                        if d < b {
                            bad = Some(d);
                            proof {
                                bad_at = i as int;
                            }
                        }
                    },
                }
            }
            proof {
                assert(dims@[i as int] == d);
            }
            i += 1;
        }
        if let Some(d) = bad {
            proof {
                assert(dims@[bad_at] == d);
            }
            return Err(Error::DimOutOfRange { dim: d, rank });
        }
        let mut result = self.clone();
        let mut d: usize = rank;
        while d > 0
            invariant
                d <= rank,
                rank == s.len(),
                s == self.shape_view(),
                mask == Seq::new(rank as nat, |t: int| dims@.contains(t as usize)),
                result.dtype_view() == self.dtype_view(),
                result.shape_view() == masked_shape(s, mask, d as int),
                reduce_chain(result, *self, op, mask, d as int),
            decreases d,
        {
            d -= 1;
            if contains(dims, d) {
                let prev = result;
                result = prev.reduce(op, d)?;
                assert(result.shape_view() =~= masked_shape(s, mask, d as int));
            } else {
                assert(result.shape_view() =~= masked_shape(s, mask, d as int));
            }
        }
        assert(result.shape_view() =~= Seq::new(
            rank as nat,
            |t: int| if mask[t] { 1usize } else { s[t] },
        ));
        Ok(result)
    }
}

/// Whether `v` lists `x`.
fn contains(v: &[usize], x: usize) -> (r: bool)
    ensures
        r == v@.contains(x),
{
    let mut i: usize = 0;
    while i < v.len()
        invariant
            i <= v@.len(),
            forall|t: int| 0 <= t < i ==> v@[t] != x,
        decreases v@.len() - i,
    {
        if v[i] == x {
            assert(v@[i as int] == x);
            return true;
        }
        i += 1;
    }
    false
}

/// When every buffer has size `1` along `dim`, the sizes add up to their number.
proof fn lemma_axis_sum_ones(bufs: Seq<&LazyBuffer>, dim: int, n: int)
    requires
        0 <= n <= bufs.len(),
        forall|t: int| 0 <= t < n ==> #[trigger] bufs[t].shape_view()[dim] == 1,
    ensures
        axis_sum(bufs, dim, n) == n,
    decreases n,
{
    if n > 0 {
        lemma_axis_sum_ones(bufs, dim, n - 1);
    }
}

} // verus!
