//! The integer arithmetic of kernels, and what the index computations of the
//! generated kernels evaluate to.
//!
//! A kernel computes the offsets it loads from and stores to with `i32`
//! instructions. `int_value` evaluates such an instruction, given the values
//! that the loop indices and the loads take (`env`), with the same checked
//! `i32` semantics as constant folding: a step that overflows has no value.
//! The laws below show that the offsets of the generated kernels are the
//! row-major offsets of the elements they are meant to reach, and that no
//! step of their computation overflows.
use vstd::prelude::*;
use crate::fold::{fold_i32, resolve};
use crate::block::{un, var};
use crate::quantize::{dequantize_q4_kernel, dequantize_q8_kernel};
use crate::lang::{A, BinaryOp as B, Const, DType, Instr, UnaryOp, VarId};
use crate::shape::{lemma_prod_from, lemma_prod_nz_subrange, prod, shape_fits};
use crate::tensor_ops::{
    acc_at, argmax_kernel, final_acc, gather_kernel, offset_iter, offset_iters, offsets_len,
    pad_kernel, rem_at, scan_kernel, scatter_kernel, stride, strides,
};

verus! {

/// The `i32` value of instruction `k` of kernel `s`: a constant of type
/// `i32` is its value; an `i32` binary operation is the checked result of its
/// operands (operands must come before it); any other instruction (a loop
/// index, a load, ...) has the value that `env` gives it.
pub open spec fn int_value(s: Seq<Instr>, env: spec_fn(int) -> i32, k: int) -> Option<i32>
    decreases k,
{
    if k < 0 || k >= s.len() {
        None
    } else {
        match s[k] {
            Instr::Const(Const::I32(c)) => Some(c),
            Instr::Const(_) => None,
            Instr::Binary { op, lhs, rhs, dtype: DType::I32 } => {
                let l = match lhs {
                    A::Const(Const::I32(c)) => Some(c),
                    A::Var(v) => if (v.0 as int) < k {
                        int_value(s, env, v.0 as int)
                    } else {
                        None
                    },
                    _ => None,
                };
                let r = match rhs {
                    A::Const(Const::I32(c)) => Some(c),
                    A::Var(v) => if (v.0 as int) < k {
                        int_value(s, env, v.0 as int)
                    } else {
                        None
                    },
                    _ => None,
                };
                match (l, r) {
                    (Some(x), Some(y)) => match fold_i32(op, x, y) {
                        Some(Const::I32(z)) => Some(z),
                        _ => None,
                    },
                    _ => None,
                }
            },
            _ => Some(env(k)),
        }
    }
}

/// The `i32` value of an operand of kernel `s`.
pub open spec fn operand_value(s: Seq<Instr>, env: spec_fn(int) -> i32, a: A) -> Option<i32> {
    match a {
        A::Const(Const::I32(c)) => Some(c),
        A::Var(v) => int_value(s, env, v.0 as int),
        _ => None,
    }
}

/// The global buffer that variable `v` of kernel `s` defines, if it is one.
pub open spec fn global_index(s: Seq<Instr>, v: VarId) -> Option<usize> {
    if v.0 < s.len() {
        match s[v.0 as int] {
            Instr::DefineGlobal { index, .. } => Some(index),
            _ => None,
        }
    } else {
        None
    }
}

/// Instruction `k` of kernel `s` loads from global buffer `b` at offset `o`:
/// `Some((b, o))`.
pub open spec fn load_at(s: Seq<Instr>, env: spec_fn(int) -> i32, k: int) -> Option<(usize, i32)> {
    if 0 <= k < s.len() {
        match s[k] {
            Instr::Load { src, offset, .. } => match (global_index(s, src), operand_value(s, env, offset)) {
                (Some(b), Some(o)) => Some((b, o)),
                _ => None,
            },
            _ => None,
        }
    } else {
        None
    }
}

/// Instruction `k` of kernel `s` stores into global buffer `b` at offset `o`
/// the value of operand `v`: `Some((b, o, v))`.
pub open spec fn store_at(s: Seq<Instr>, env: spec_fn(int) -> i32, k: int) -> Option<(usize, i32, A)> {
    if 0 <= k < s.len() {
        match s[k] {
            Instr::Store { dst, offset, value, .. } => match (global_index(s, dst), operand_value(s, env, offset)) {
                (Some(b), Some(o)) => Some((b, o, value)),
                _ => None,
            },
            _ => None,
        }
    } else {
        None
    }
}

/// The operand whose value a `Where` at `k` passes on, by the `i32` value of
/// its condition: the first when it is not `0`, the second otherwise.
pub open spec fn chosen(s: Seq<Instr>, env: spec_fn(int) -> i32, k: int) -> Option<A> {
    if 0 <= k < s.len() {
        match s[k] {
            Instr::Where { cond, on_true, on_false, .. } => match operand_value(s, env, cond) {
                Some(c) => Some(if c != 0 { on_true } else { on_false }),
                None => None,
            },
            _ => None,
        }
    } else {
        None
    }
}

/// The loop that instruction `k` of kernel `s` opens, when its bounds are
/// `i32` constants and its step is `1`: the indices `lo .. up` it runs over
/// and the instruction `end` that closes it, as `Some((lo, up, end))`.
pub open spec fn loop_at(s: Seq<Instr>, k: int) -> Option<(int, int, int)> {
    if 0 <= k < s.len() {
        match s[k] {
            Instr::Range { lo: A::Const(Const::I32(l)), up: A::Const(Const::I32(u)), step, end_idx } => if step
                == 1 {
                Some((l as int, u as int, end_idx.0 as int))
            } else {
                None
            },
            _ => None,
        }
    } else {
        None
    }
}

/// Row-major offset of `(o, a, i)` in a tensor seen as `outer x axis x inner`.
pub open spec fn offset3(o: int, a: int, i: int, axis_len: int, inner: int) -> int {
    o * (axis_len * inner) + a * inner + i
}

/// The row-major offset of an element of an `outer x axis x inner` tensor lies inside it.
pub proof fn lemma_offset3_bound(o: int, a: int, i: int, outer: int, axis_len: int, inner: int)
    requires
        0 <= o < outer,
        0 <= a < axis_len,
        0 <= i < inner,
    ensures
        0 <= a * inner,
        a * inner + i < axis_len * inner,
        0 <= o * (axis_len * inner),
        offset3(o, a, i, axis_len, inner) < outer * (axis_len * inner),
        axis_len * inner <= outer * (axis_len * inner),
        0 <= offset3(o, a, i, axis_len, inner),
{
    assert(0 <= a * inner) by (nonlinear_arith)
        requires
            0 <= a,
            0 <= inner,
    ;
    assert(a * inner + i < axis_len * inner) by (nonlinear_arith)
        requires
            0 <= a < axis_len,
            0 <= i < inner,
    ;
    assert(0 <= o * (axis_len * inner)) by (nonlinear_arith)
        requires
            0 <= o,
            0 <= axis_len * inner,
    ;
    assert(o * (axis_len * inner) + axis_len * inner <= outer * (axis_len * inner)) by (nonlinear_arith)
        requires
            0 <= o < outer,
            0 <= axis_len * inner,
    ;
}

/// In the kernel of a scan (`cumsum`, `cumprod`), for every value of the
/// outer, inner and axis loop indices within their loops, the offset that is
/// loaded from and stored to is the row-major offset of that element, and
/// lies inside the tensor: the element is loaded from the source (buffer `0`)
/// and the accumulator is stored at the same place of the result (buffer `1`).
pub proof fn law_scan_offset(
    outer: usize,
    axis_len: usize,
    inner: usize,
    dtype: DType,
    init: Const,
    op: B,
    env: spec_fn(int) -> i32,
)
    requires
        outer * (axis_len * inner) <= i32::MAX,
        0 <= env(2) < outer,
        0 <= env(3) < inner,
        0 <= env(5) < axis_len,
    ensures
        int_value(scan_kernel(outer, axis_len, inner, dtype, init, op), env, 9) == Some(
            offset3(env(2) as int, env(5) as int, env(3) as int, axis_len as int, inner as int)
                as i32,
        ),
        0 <= offset3(env(2) as int, env(5) as int, env(3) as int, axis_len as int, inner as int)
            < outer * (axis_len * inner),
        ({
            let s = scan_kernel(outer, axis_len, inner, dtype, init, op);
            let off = offset3(env(2) as int, env(5) as int, env(3) as int, axis_len as int, inner as int) as i32;
            &&& load_at(s, env, 10) == Some((0usize, off))
            &&& store_at(s, env, 13) == Some((1usize, off, var(4)))
        }),
{
    let s = scan_kernel(outer, axis_len, inner, dtype, init, op);
    let (o, a, i) = (env(2) as int, env(5) as int, env(3) as int);
    lemma_offset3_bound(o, a, i, outer as int, axis_len as int, inner as int);
    assert(inner <= axis_len * inner) by (nonlinear_arith)
        requires
            0 <= a < axis_len,
            0 <= inner,
    ;
    assert(int_value(s, env, 2) == Some(env(2)));
    assert(int_value(s, env, 3) == Some(env(3)));
    assert(int_value(s, env, 5) == Some(env(5)));
    assert(int_value(s, env, 6) == Some((o * (axis_len * inner)) as i32));
    assert(int_value(s, env, 7) == Some((a * inner) as i32));
    assert(int_value(s, env, 8) == Some((o * (axis_len * inner) + a * inner) as i32));
}

/// In the kernel of `argmax`, for every value of the outer, inner and axis
/// loop indices within their loops, the offset that is loaded from is the
/// row-major offset of that element in the source (buffer `0`), and the
/// offset that the best index (the accumulator at `5`) is stored to is the
/// row-major offset of `(outer, inner)` in the result (buffer `1`), whose
/// axis has length one.
pub proof fn law_argmax_offsets(
    outer: usize,
    axis_len: usize,
    inner: usize,
    dtype: DType,
    env: spec_fn(int) -> i32,
)
    requires
        outer * (axis_len * inner) <= i32::MAX,
        0 <= env(2) < outer,
        0 <= env(3) < inner,
        0 <= env(6) < axis_len,
    ensures
        int_value(argmax_kernel(outer, axis_len, inner, dtype), env, 10) == Some(
            offset3(env(2) as int, env(6) as int, env(3) as int, axis_len as int, inner as int)
                as i32,
        ),
        0 <= offset3(env(2) as int, env(6) as int, env(3) as int, axis_len as int, inner as int)
            < outer * (axis_len * inner),
        int_value(argmax_kernel(outer, axis_len, inner, dtype), env, 19) == Some(
            offset3(env(2) as int, 0, env(3) as int, 1, inner as int) as i32,
        ),
        0 <= offset3(env(2) as int, 0, env(3) as int, 1, inner as int) < outer * inner,
        ({
            let s = argmax_kernel(outer, axis_len, inner, dtype);
            &&& load_at(s, env, 11) == Some(
                (
                    0usize,
                    offset3(env(2) as int, env(6) as int, env(3) as int, axis_len as int, inner as int)
                        as i32,
                ),
            )
            &&& store_at(s, env, 20) == Some(
                (1usize, offset3(env(2) as int, 0, env(3) as int, 1, inner as int) as i32, var(5)),
            )
        }),
{
    let s = argmax_kernel(outer, axis_len, inner, dtype);
    let (o, a, i) = (env(2) as int, env(6) as int, env(3) as int);
    lemma_offset3_bound(o, a, i, outer as int, axis_len as int, inner as int);
    lemma_offset3_bound(o, 0, i, outer as int, 1, inner as int);
    assert(outer * inner <= outer * (axis_len * inner)) by (nonlinear_arith)
        requires
            0 <= a < axis_len,
            0 <= inner,
            0 <= outer,
    ;
    assert(inner <= axis_len * inner) by (nonlinear_arith)
        requires
            0 <= a < axis_len,
            0 <= inner,
    ;
    assert(1 * inner == inner);
    assert(int_value(s, env, 2) == Some(env(2)));
    assert(int_value(s, env, 3) == Some(env(3)));
    assert(int_value(s, env, 6) == Some(env(6)));
    assert(int_value(s, env, 7) == Some((o * (axis_len * inner)) as i32));
    assert(int_value(s, env, 8) == Some((a * inner) as i32));
    assert(int_value(s, env, 9) == Some((o * (axis_len * inner) + a * inner) as i32));
    assert(int_value(s, env, 18) == Some((o * inner) as i32));
}

/// In the kernel of `pad`, for every value of the outer, padded-axis and
/// inner loop indices within their loops: the offset stored to is the
/// row-major offset of that element in the padded tensor; the condition is
/// `1` exactly when the padded coordinate falls inside the source, and `0`
/// otherwise; and then the offset loaded from is the row-major offset in the
/// source of the element it comes from, shifted back by `pad_before`. The
/// value stored into the result (buffer `1`) is that element of the source
/// (buffer `0`) when the condition holds, and `pad_val` cast to `dtype`
/// otherwise.
#[verifier::rlimit(40)]
pub proof fn law_pad_offsets(
    outer: usize,
    src_dim: usize,
    pad_before: usize,
    pad_after: usize,
    inner: usize,
    dtype: DType,
    pad_val: Const,
    env: spec_fn(int) -> i32,
)
    requires
        outer * ((src_dim + pad_before + pad_after) * inner) <= i32::MAX,
        0 <= env(2) < outer,
        0 <= env(3) < src_dim + pad_before + pad_after,
        0 <= env(4) < inner,
    ensures
        ({
            let dst_dim = (src_dim + pad_before + pad_after) as usize;
            let s = pad_kernel(outer, src_dim, dst_dim, inner, pad_before, dtype, pad_val);
            let (o, d, i) = (env(2) as int, env(3) as int, env(4) as int);
            let inside = pad_before <= d < pad_before + src_dim;
            &&& int_value(s, env, 9) == Some(offset3(o, d, i, dst_dim as int, inner as int) as i32)
            &&& 0 <= offset3(o, d, i, dst_dim as int, inner as int) < outer * (dst_dim * inner)
            &&& int_value(s, env, 14) == Some(if inside { 1i32 } else { 0i32 })
            &&& inside ==> int_value(s, env, 19) == Some(
                offset3(o, d - pad_before, i, src_dim as int, inner as int) as i32,
            )
            &&& inside ==> 0 <= offset3(o, d - pad_before, i, src_dim as int, inner as int) < outer
                * (src_dim * inner)
            &&& store_at(s, env, 24) == Some(
                (1usize, offset3(o, d, i, dst_dim as int, inner as int) as i32, var(23)),
            )
            &&& chosen(s, env, 23) == Some(if inside { var(20) } else { var(22) })
            &&& inside ==> load_at(s, env, 20) == Some(
                (0usize, offset3(o, d - pad_before, i, src_dim as int, inner as int) as i32),
            )
            &&& s[22] == un(UnaryOp::Cast(dtype), 21, dtype)
            &&& s[21] == Instr::Const(pad_val)
        }),
{
    let n: int = src_dim + pad_before + pad_after;
    assert(n <= outer * (n * inner)) by (nonlinear_arith)
        requires
            0 <= env(2) < outer,
            0 <= env(4) < inner,
            0 <= n,
    ;
    assert(inner <= outer * (n * inner)) by (nonlinear_arith)
        requires
            0 <= env(2) < outer,
            0 <= env(3) < n,
            0 <= inner,
    ;
    let dst_dim = n as usize;
    assert(dst_dim == n);
    let s = pad_kernel(outer, src_dim, dst_dim, inner, pad_before, dtype, pad_val);
    let (o, d, i) = (env(2) as int, env(3) as int, env(4) as int);
    lemma_offset3_bound(o, d, i, outer as int, dst_dim as int, inner as int);
    assert(dst_dim <= dst_dim * inner) by (nonlinear_arith)
        requires
            0 <= i < inner,
            0 <= dst_dim,
    ;
    assert(src_dim * inner <= dst_dim * inner) by (nonlinear_arith)
        requires
            src_dim <= dst_dim,
            0 <= inner,
    ;
    assert(outer * (src_dim * inner) <= outer * (dst_dim * inner)) by (nonlinear_arith)
        requires
            src_dim * inner <= dst_dim * inner,
            0 <= outer,
    ;
    assert(int_value(s, env, 2) == Some(env(2)));
    assert(int_value(s, env, 3) == Some(env(3)));
    assert(int_value(s, env, 4) == Some(env(4)));
    assert(int_value(s, env, 5) == Some((o * (dst_dim * inner)) as i32));
    assert(int_value(s, env, 6) == Some((o * (dst_dim * inner)) as i32));
    assert(int_value(s, env, 7) == Some((d * inner) as i32));
    assert(int_value(s, env, 8) == Some((o * (dst_dim * inner) + d * inner) as i32));
    assert(int_value(s, env, 10) == Some(pad_before as i32));
    assert(int_value(s, env, 11) == Some((pad_before + src_dim) as i32));
    assert(int_value(s, env, 12) == Some(if d >= pad_before { 1i32 } else { 0i32 }));
    assert(int_value(s, env, 13) == Some(if d < pad_before + src_dim { 1i32 } else { 0i32 }));
    if pad_before <= d < pad_before + src_dim {
        let x = d - pad_before;
        lemma_offset3_bound(o, x, i, outer as int, src_dim as int, inner as int);
        assert(int_value(s, env, 15) == Some(x as i32));
        assert(int_value(s, env, 16) == Some((o * (src_dim * inner)) as i32));
        assert(int_value(s, env, 17) == Some((x * inner) as i32));
        assert(int_value(s, env, 18) == Some((o * (src_dim * inner) + x * inner) as i32));
    }
}

/// The product of the dimensions of `s` from `i` on.
pub open spec fn tail(s: Seq<usize>, i: int) -> nat {
    prod(s.subrange(i, s.len() as int))
}

/// Coordinate `i` of the flat index `r` in a row-major tensor of shape `dims`.
pub open spec fn unravel(dims: Seq<usize>, r: int, i: int) -> int {
    (r / (stride(dims, i) as int)) % (dims[i] as int)
}

/// The coordinate used along dimension `i` when indexing with the flat
/// position `r` of a tensor of shape `dims_a`: the index `idx` along `dim`,
/// the coordinate of `r` along every other dimension.
pub open spec fn index_coord(dims_a: Seq<usize>, dim: int, r: int, idx: int, i: int) -> int {
    if i == dim {
        idx
    } else {
        unravel(dims_a, r, i)
    }
}

/// The offset, in a row-major tensor of shape `dims_b`, of the coordinates
/// `index_coord(.., 0) .. index_coord(.., k - 1)` (the later ones taken as `0`).
pub open spec fn partial_offset(
    dims_a: Seq<usize>,
    dims_b: Seq<usize>,
    dim: int,
    r: int,
    idx: int,
    k: int,
) -> int
    decreases k,
{
    if k <= 0 {
        0
    } else {
        partial_offset(dims_a, dims_b, dim, r, idx, k - 1) + index_coord(dims_a, dim, r, idx, k - 1)
            * (stride(dims_b, k - 1) as int)
    }
}

/// The offset in a tensor of shape `dims_b` of the element picked by flat
/// position `r` of a tensor of shape `dims_a` whose index along `dim` is `idx`.
pub open spec fn indexed_offset(dims_a: Seq<usize>, dims_b: Seq<usize>, dim: int, r: int, idx: int) -> int {
    partial_offset(dims_a, dims_b, dim, r, idx, dims_a.len() as int)
}

/// The number of instructions of the first `k` steps of an offset computation.
pub proof fn lemma_iters_len(
    k: int,
    p0: int,
    rem0: int,
    acc0: int,
    idx_val: int,
    rank: int,
    dim: int,
    sa: Seq<usize>,
    sb: Seq<usize>,
)
    requires
        0 <= k <= rank,
        1 <= rank,
    ensures
        offset_iters(k, p0, rem0, acc0, idx_val, rank, dim, sa, sb).len() == if k < rank {
            7 * k
        } else {
            7 * k - 4
        },
    decreases k,
{
    if k > 0 {
        lemma_iters_len(k - 1, p0, rem0, acc0, idx_val, rank, dim, sa, sb);
        let last = offset_iter(p0, rem0, acc0, idx_val, k - 1, rank, dim, sa, sb);
        if k < rank {
            assert(last.len() == 7);
        } else {
            assert(last.len() == 3);
        }
    }
}

proof fn lemma_iters_at(
    k: int,
    p0: int,
    rem0: int,
    acc0: int,
    idx_val: int,
    rank: int,
    dim: int,
    sa: Seq<usize>,
    sb: Seq<usize>,
    i: int,
    j: int,
)
    requires
        0 <= i < k <= rank,
        0 <= j,
        i + 1 < rank ==> j < 7,
        i + 1 >= rank ==> j < 3,
    ensures
        offset_iters(k, p0, rem0, acc0, idx_val, rank, dim, sa, sb)[7 * i + j] == offset_iter(
            p0,
            rem0,
            acc0,
            idx_val,
            i,
            rank,
            dim,
            sa,
            sb,
        )[j],
    decreases k,
{
    lemma_iters_len(k - 1, p0, rem0, acc0, idx_val, rank, dim, sa, sb);
    if i < k - 1 {
        lemma_iters_at(k - 1, p0, rem0, acc0, idx_val, rank, dim, sa, sb, i, j);
    }
}

proof fn lemma_prod_pos(s: Seq<usize>)
    ensures
        prod(s) >= 1 <==> forall|j: int| 0 <= j < s.len() ==> s[j] >= 1,
    decreases s.len(),
{
    if s.len() > 0 {
        let t = s.drop_last();
        lemma_prod_pos(t);
        let a = prod(t);
        let b = s.last() as nat;
        assert(a * b >= 1 <==> (a >= 1 && b >= 1)) by (nonlinear_arith);
        if prod(s) >= 1 {
            assert forall|j: int| 0 <= j < s.len() implies s[j] >= 1 by {
                if j < s.len() - 1 {
                    assert(t[j] == s[j]);
                }
            }
        }
        if forall|j: int| 0 <= j < s.len() ==> s[j] >= 1 {
            assert forall|j: int| 0 <= j < t.len() implies t[j] >= 1 by {
                assert(t[j] == s[j]);
            }
        }
    }
}

proof fn lemma_tail_bounds(s: Seq<usize>, i: int)
    requires
        0 <= i <= s.len(),
        forall|j: int| 0 <= j < s.len() ==> s[j] >= 1,
    ensures
        1 <= tail(s, i) <= prod(s),
{
    let n = s.len() as int;
    let front = s.subrange(0, i);
    let back = s.subrange(i, n);
    lemma_prod_pos(front);
    lemma_prod_pos(back);
    assert forall|j: int| 0 <= j < front.len() implies front[j] >= 1 by {
        assert(front[j] == s[j]);
    }
    assert forall|j: int| 0 <= j < back.len() implies back[j] >= 1 by {
        assert(back[j] == s[i + j]);
    }
    crate::shape::lemma_prod_at(s, i);
    let a = prod(front);
    let b = prod(back);
    assert(b <= a * b) by (nonlinear_arith)
        requires
            a >= 1,
    ;
}

/// The offset computation of `gather` and `scatter`, found at `p0` in kernel
/// `s`, turns the flat position `r` (held by `rem0`) of a tensor of shape
/// `dims_a` and the index `idx` (held by `idx_var`) into an offset in a tensor
/// of shape `dims_b`, starting from `0` (held by `acc0`).
pub open spec fn offsets_setting(
    s: Seq<Instr>,
    env: spec_fn(int) -> i32,
    p0: int,
    rem0: int,
    acc0: int,
    idx_var: int,
    dim: int,
    dims_a: Seq<usize>,
    dims_b: Seq<usize>,
    r: int,
    idx: int,
) -> bool {
    let n = dims_a.len() as int;
    &&& s.len() <= usize::MAX
    &&& 0 <= rem0 < p0
    &&& 0 <= acc0 < p0
    &&& 0 <= idx_var < p0
    &&& dims_b.len() == n
    &&& 0 <= dim < n
    &&& p0 + offsets_len(n) <= s.len()
    &&& forall|q: int|
        0 <= q < offsets_len(n) ==> s[p0 + q] == offset_iters(
            n,
            p0,
            rem0,
            acc0,
            idx_var,
            n,
            dim,
            strides(dims_a),
            strides(dims_b),
        )[q]
    &&& shape_fits(dims_a)
    &&& shape_fits(dims_b)
    &&& prod(dims_a) <= i32::MAX
    &&& prod(dims_b) <= i32::MAX
    &&& forall|j: int| 0 <= j < n && j != dim ==> dims_a[j] <= dims_b[j]
    &&& 0 <= r < prod(dims_a)
    &&& 0 <= idx < dims_b[dim]
    &&& int_value(s, env, rem0) == Some(r as i32)
    &&& int_value(s, env, acc0) == Some(0i32)
    &&& int_value(s, env, idx_var) == Some(idx as i32)
}

/// Before step `i`, the remaining flat position and the offset so far.
pub open spec fn offsets_before(
    s: Seq<Instr>,
    env: spec_fn(int) -> i32,
    p0: int,
    rem0: int,
    acc0: int,
    dim: int,
    dims_a: Seq<usize>,
    dims_b: Seq<usize>,
    r: int,
    idx: int,
    i: int,
) -> bool {
    &&& int_value(s, env, rem_at(p0, rem0, i)) == Some((r % (tail(dims_a, i) as int)) as i32)
    &&& int_value(s, env, acc_at(p0, acc0, i)) == Some(
        partial_offset(dims_a, dims_b, dim, r, idx, i) as i32,
    )
    &&& 0 <= partial_offset(dims_a, dims_b, dim, r, idx, i) <= prod(dims_b) - tail(dims_b, i)
}

proof fn lemma_setting_dims(
    s: Seq<Instr>,
    env: spec_fn(int) -> i32,
    p0: int,
    rem0: int,
    acc0: int,
    idx_var: int,
    dim: int,
    dims_a: Seq<usize>,
    dims_b: Seq<usize>,
    r: int,
    idx: int,
)
    requires
        offsets_setting(s, env, p0, rem0, acc0, idx_var, dim, dims_a, dims_b, r, idx),
    ensures
        forall|j: int| 0 <= j < dims_a.len() ==> dims_a[j] >= 1,
        forall|j: int| 0 <= j < dims_b.len() ==> dims_b[j] >= 1,
{
    lemma_prod_pos(dims_a);
    assert forall|j: int| 0 <= j < dims_b.len() implies dims_b[j] >= 1 by {
        if j != dim {
            assert(dims_a[j] >= 1);
        }
    }
}

proof fn lemma_step_instr(
    s: Seq<Instr>,
    env: spec_fn(int) -> i32,
    p0: int,
    rem0: int,
    acc0: int,
    idx_var: int,
    dim: int,
    dims_a: Seq<usize>,
    dims_b: Seq<usize>,
    r: int,
    idx: int,
    i: int,
    j: int,
)
    requires
        offsets_setting(s, env, p0, rem0, acc0, idx_var, dim, dims_a, dims_b, r, idx),
        0 <= i < dims_a.len(),
        0 <= j,
        i + 1 < dims_a.len() ==> j < 7,
        i + 1 >= dims_a.len() ==> j < 3,
    ensures
        s[p0 + 7 * i + j] == offset_iter(
            p0,
            rem0,
            acc0,
            idx_var,
            i,
            dims_a.len() as int,
            dim,
            strides(dims_a),
            strides(dims_b),
        )[j],
{
    let n = dims_a.len() as int;
    lemma_iters_at(n, p0, rem0, acc0, idx_var, n, dim, strides(dims_a), strides(dims_b), i, j);
    assert(0 <= 7 * i + j < offsets_len(n));
    assert(p0 + (7 * i + j) == p0 + 7 * i + j);
}

proof fn lemma_quotient_coord(r: int, da: int, ta: int)
    requires
        0 <= r,
        1 <= da,
        1 <= ta,
    ensures
        (r % (da * ta)) / ta == (r / ta) % da,
        (r % (da * ta)) % ta == r % ta,
        0 <= (r / ta) % da < da,
{
    assert(da * ta == ta * da) by (nonlinear_arith);
    vstd::arithmetic::div_mod::lemma_mod_breakdown(r, ta, da);
    vstd::arithmetic::div_mod::lemma_mod_mod(r, ta, da);
    vstd::arithmetic::div_mod::lemma_mod_pos_bound(r, ta);
    vstd::arithmetic::div_mod::lemma_mod_pos_bound(r / ta, da);
    let q = (r / ta) % da;
    assert(q * ta == ta * q) by (nonlinear_arith);
    vstd::arithmetic::div_mod::lemma_fundamental_div_mod_converse(
        r % (ta * da),
        ta,
        (r / ta) % da,
        r % ta,
    );
}

#[verifier::rlimit(60)]
proof fn lemma_offset_step(
    s: Seq<Instr>,
    env: spec_fn(int) -> i32,
    p0: int,
    rem0: int,
    acc0: int,
    idx_var: int,
    dim: int,
    dims_a: Seq<usize>,
    dims_b: Seq<usize>,
    r: int,
    idx: int,
    i: int,
)
    requires
        offsets_setting(s, env, p0, rem0, acc0, idx_var, dim, dims_a, dims_b, r, idx),
        0 <= i,
        i + 1 < dims_a.len(),
        offsets_before(s, env, p0, rem0, acc0, dim, dims_a, dims_b, r, idx, i),
    ensures
        offsets_before(s, env, p0, rem0, acc0, dim, dims_a, dims_b, r, idx, i + 1),
        forall|j: int| 0 <= j < 7 ==> #[trigger] int_value(s, env, p0 + 7 * i + j) is Some,
{
    let n = dims_a.len() as int;
    let p = p0 + 7 * i;
    let rem = rem_at(p0, rem0, i);
    let acc = acc_at(p0, acc0, i);
    lemma_setting_dims(s, env, p0, rem0, acc0, idx_var, dim, dims_a, dims_b, r, idx);
    lemma_step_instr(s, env, p0, rem0, acc0, idx_var, dim, dims_a, dims_b, r, idx, i, 0);
    lemma_step_instr(s, env, p0, rem0, acc0, idx_var, dim, dims_a, dims_b, r, idx, i, 1);
    lemma_step_instr(s, env, p0, rem0, acc0, idx_var, dim, dims_a, dims_b, r, idx, i, 2);
    lemma_step_instr(s, env, p0, rem0, acc0, idx_var, dim, dims_a, dims_b, r, idx, i, 3);
    lemma_step_instr(s, env, p0, rem0, acc0, idx_var, dim, dims_a, dims_b, r, idx, i, 4);
    lemma_step_instr(s, env, p0, rem0, acc0, idx_var, dim, dims_a, dims_b, r, idx, i, 5);
    lemma_step_instr(s, env, p0, rem0, acc0, idx_var, dim, dims_a, dims_b, r, idx, i, 6);
    lemma_prod_from(dims_a, i);
    lemma_prod_from(dims_b, i);
    lemma_tail_bounds(dims_a, i);
    lemma_tail_bounds(dims_a, i + 1);
    lemma_tail_bounds(dims_b, i);
    lemma_tail_bounds(dims_b, i + 1);
    lemma_prod_nz_subrange(dims_a, i + 1, n);
    lemma_prod_nz_subrange(dims_b, i + 1, n);
    let da = dims_a[i] as int;
    let db = dims_b[i] as int;
    let ta = tail(dims_a, i + 1) as int;
    let tb = tail(dims_b, i + 1) as int;
    assert(tail(dims_a, i) == da * ta);
    assert(tail(dims_b, i) == db * tb);
    assert(strides(dims_a)[i] == ta);
    assert(strides(dims_b)[i] == tb);
    assert(stride(dims_a, i) == ta);
    assert(stride(dims_b, i) == tb);
    let x = r % (da * ta);
    let c = x / ta;
    lemma_quotient_coord(r, da, ta);
    vstd::arithmetic::div_mod::lemma_fundamental_div_mod(x, ta);
    vstd::arithmetic::div_mod::lemma_mod_pos_bound(x, ta);
    vstd::arithmetic::div_mod::lemma_mod_pos_bound(r, da * ta);
    assert(0 <= c) by {
        vstd::arithmetic::div_mod::lemma_div_pos_is_pos(x, ta);
    }
    assert(c * ta == ta * c) by (nonlinear_arith);
    assert(0 <= c * ta <= x);
    assert(c == unravel(dims_a, r, i));
    let dc = index_coord(dims_a, dim, r, idx, i);
    assert(0 <= dc < db);
    assert(db <= db * tb) by (nonlinear_arith)
        requires
            1 <= tb,
            0 <= db,
    ;
    assert(dc * tb <= db * tb - tb) by (nonlinear_arith)
        requires
            0 <= dc < db,
            0 <= tb,
    ;
    assert(0 <= dc * tb) by (nonlinear_arith)
        requires
            0 <= dc,
            0 <= tb,
    ;
    let po = partial_offset(dims_a, dims_b, dim, r, idx, i);
    assert(partial_offset(dims_a, dims_b, dim, r, idx, i + 1) == po + dc * tb);
    assert(int_value(s, env, rem) == Some(x as i32));
    assert(int_value(s, env, acc) == Some(po as i32));
    assert(int_value(s, env, p) == Some(ta as i32));
    assert(int_value(s, env, p + 1) == Some(c as i32));
    assert(int_value(s, env, p + 2) == Some((c * ta) as i32));
    assert(int_value(s, env, p + 3) == Some((x - c * ta) as i32));
    assert(int_value(s, env, p + 4) == Some(tb as i32));
    if i == dim {
        assert(int_value(s, env, idx_var) == Some(dc as i32));
    } else {
        assert(int_value(s, env, p + 1) == Some(dc as i32));
    }
    assert(int_value(s, env, p + 5) == Some((dc * tb) as i32));
    assert(int_value(s, env, p + 6) == Some((po + dc * tb) as i32));
    assert(rem_at(p0, rem0, i + 1) == p + 3);
    assert(acc_at(p0, acc0, i + 1) == p + 6);
}

proof fn lemma_offsets_before(
    s: Seq<Instr>,
    env: spec_fn(int) -> i32,
    p0: int,
    rem0: int,
    acc0: int,
    idx_var: int,
    dim: int,
    dims_a: Seq<usize>,
    dims_b: Seq<usize>,
    r: int,
    idx: int,
    i: int,
)
    requires
        offsets_setting(s, env, p0, rem0, acc0, idx_var, dim, dims_a, dims_b, r, idx),
        0 <= i < dims_a.len(),
    ensures
        offsets_before(s, env, p0, rem0, acc0, dim, dims_a, dims_b, r, idx, i),
    decreases i,
{
    if i == 0 {
        assert(dims_a.subrange(0, dims_a.len() as int) =~= dims_a);
        assert(dims_b.subrange(0, dims_b.len() as int) =~= dims_b);
        vstd::arithmetic::div_mod::lemma_small_mod(r as nat, prod(dims_a));
    } else {
        lemma_offsets_before(s, env, p0, rem0, acc0, idx_var, dim, dims_a, dims_b, r, idx, i - 1);
        lemma_offset_step(s, env, p0, rem0, acc0, idx_var, dim, dims_a, dims_b, r, idx, i - 1);
    }
}

#[verifier::rlimit(40)]
proof fn lemma_offsets_done(
    s: Seq<Instr>,
    env: spec_fn(int) -> i32,
    p0: int,
    rem0: int,
    acc0: int,
    idx_var: int,
    dim: int,
    dims_a: Seq<usize>,
    dims_b: Seq<usize>,
    r: int,
    idx: int,
)
    requires
        offsets_setting(s, env, p0, rem0, acc0, idx_var, dim, dims_a, dims_b, r, idx),
    ensures
        int_value(s, env, final_acc(p0, acc0, dims_a.len() as int)) == Some(
            indexed_offset(dims_a, dims_b, dim, r, idx) as i32,
        ),
        0 <= indexed_offset(dims_a, dims_b, dim, r, idx) < prod(dims_b),
        forall|j: int|
            0 <= j < 3 ==> #[trigger] int_value(s, env, p0 + 7 * (dims_a.len() - 1) + j) is Some,
{
    let n = dims_a.len() as int;
    let i = n - 1;
    let p = p0 + 7 * i;
    let rem = rem_at(p0, rem0, i);
    let acc = acc_at(p0, acc0, i);
    lemma_offsets_before(s, env, p0, rem0, acc0, idx_var, dim, dims_a, dims_b, r, idx, i);
    lemma_setting_dims(s, env, p0, rem0, acc0, idx_var, dim, dims_a, dims_b, r, idx);
    lemma_step_instr(s, env, p0, rem0, acc0, idx_var, dim, dims_a, dims_b, r, idx, i, 0);
    lemma_step_instr(s, env, p0, rem0, acc0, idx_var, dim, dims_a, dims_b, r, idx, i, 1);
    lemma_step_instr(s, env, p0, rem0, acc0, idx_var, dim, dims_a, dims_b, r, idx, i, 2);
    lemma_prod_from(dims_a, i);
    lemma_prod_from(dims_b, i);
    lemma_tail_bounds(dims_b, i);
    let da = dims_a[i] as int;
    let db = dims_b[i] as int;
    assert(dims_a.subrange(n, n) =~= Seq::<usize>::empty());
    assert(dims_b.subrange(n, n) =~= Seq::<usize>::empty());
    assert(tail(dims_a, n) == 1);
    assert(tail(dims_b, n) == 1);
    assert(tail(dims_a, i) == (dims_a[i] as nat) * tail(dims_a, n));
    assert(tail(dims_b, i) == (dims_b[i] as nat) * tail(dims_b, n));
    assert((dims_a[i] as nat) * 1 == dims_a[i]) by (nonlinear_arith);
    assert((dims_b[i] as nat) * 1 == dims_b[i]) by (nonlinear_arith);
    assert(tail(dims_a, i) == da);
    assert(tail(dims_b, i) == db);
    assert(strides(dims_b)[i] == 1);
    assert(stride(dims_a, i) == 1);
    assert(stride(dims_b, i) == 1);
    let x = r % da;
    vstd::arithmetic::div_mod::lemma_mod_pos_bound(r, da);
    assert(r / 1 == r);
    assert(x == unravel(dims_a, r, i));
    let dc = index_coord(dims_a, dim, r, idx, i);
    assert(0 <= dc < db);
    let po = partial_offset(dims_a, dims_b, dim, r, idx, i);
    assert(dc * 1 == dc);
    assert(partial_offset(dims_a, dims_b, dim, r, idx, n) == po + dc);
    assert(int_value(s, env, rem) == Some(x as i32));
    assert(int_value(s, env, acc) == Some(po as i32));
    assert(int_value(s, env, p) == Some(1i32));
    if i == dim {
        assert(int_value(s, env, idx_var) == Some(dc as i32));
    } else {
        assert(int_value(s, env, rem) == Some(dc as i32));
    }
    assert(int_value(s, env, p + 1) == Some(dc as i32));
    assert(int_value(s, env, p + 2) == Some((po + dc) as i32));
    assert(final_acc(p0, acc0, n) == p + 2);
}

/// An instruction of the offset computation: an `i32` constant, or `i32`
/// arithmetic on earlier variables that are computed from `p0` on or are the
/// flat position, the starting offset or the index.
pub open spec fn offset_instr(instr: Instr, k: int, p0: int, rem0: int, acc0: int, idx_var: int) -> bool {
    match instr {
        Instr::Const(Const::I32(_)) => true,
        Instr::Binary { lhs: A::Var(a), rhs: A::Var(b), dtype: DType::I32, .. } => {
            &&& (a.0 as int) < k
            &&& (b.0 as int) < k
            &&& ((a.0 as int) >= p0 || a.0 == rem0 || a.0 == acc0 || a.0 == idx_var)
            &&& ((b.0 as int) >= p0 || b.0 == rem0 || b.0 == acc0 || b.0 == idx_var)
        },
        _ => false,
    }
}

/// Every instruction of the offset computation of `gather` and `scatter` is
/// `i32` arithmetic on earlier variables.
pub proof fn lemma_offsets_shape(
    s: Seq<Instr>,
    env: spec_fn(int) -> i32,
    p0: int,
    rem0: int,
    acc0: int,
    idx_var: int,
    dim: int,
    dims_a: Seq<usize>,
    dims_b: Seq<usize>,
    r: int,
    idx: int,
    q: int,
)
    requires
        offsets_setting(s, env, p0, rem0, acc0, idx_var, dim, dims_a, dims_b, r, idx),
        0 <= q < offsets_len(dims_a.len() as int),
    ensures
        offset_instr(s[p0 + q], p0 + q, p0, rem0, acc0, idx_var),
{
    let n = dims_a.len() as int;
    let i = q / 7;
    let j = q % 7;
    assert(q == 7 * i + j);
    assert(0 <= i < n);
    lemma_step_instr(s, env, p0, rem0, acc0, idx_var, dim, dims_a, dims_b, r, idx, i, j);
    assert(s[p0 + q] == s[p0 + 7 * i + j]);
}

/// Every instruction of the offset computation of `gather` and `scatter`
/// has an `i32` value: no step of it overflows or divides by zero.
pub proof fn lemma_offsets_defined(
    s: Seq<Instr>,
    env: spec_fn(int) -> i32,
    p0: int,
    rem0: int,
    acc0: int,
    idx_var: int,
    dim: int,
    dims_a: Seq<usize>,
    dims_b: Seq<usize>,
    r: int,
    idx: int,
    q: int,
)
    requires
        offsets_setting(s, env, p0, rem0, acc0, idx_var, dim, dims_a, dims_b, r, idx),
        0 <= q < offsets_len(dims_a.len() as int),
    ensures
        int_value(s, env, p0 + q) is Some,
{
    let n = dims_a.len() as int;
    let i = q / 7;
    let j = q % 7;
    assert(q == 7 * i + j);
    if i + 1 < n {
        lemma_offsets_before(s, env, p0, rem0, acc0, idx_var, dim, dims_a, dims_b, r, idx, i);
        lemma_offset_step(s, env, p0, rem0, acc0, idx_var, dim, dims_a, dims_b, r, idx, i);
        assert(int_value(s, env, p0 + 7 * i + j) is Some);
    } else {
        lemma_offsets_done(s, env, p0, rem0, acc0, idx_var, dim, dims_a, dims_b, r, idx);
        assert(int_value(s, env, p0 + 7 * (n - 1) + j) is Some);
    }
}

/// In the kernel of `gather`, for every flat position `r` of the index tensor
/// (the loop index) and every index `idx` loaded there that lies inside
/// `src` along `dim`: the offset that is loaded from is the row-major offset
/// in `src` of the coordinates of `r`, with the one along `dim` replaced by
/// `idx`, and it lies inside `src`. So each iteration reads `idx` from the
/// index tensor (buffer `1`) at `r`, reads that element of `src` (buffer
/// `0`), and stores it into the result (buffer `2`) at `r`. This holds where
/// the index tensor is no longer than `src` along the other dimensions, and
/// both sizes fit in `i32`.
pub proof fn law_gather_offset(
    src_dims: Seq<usize>,
    idx_dims: Seq<usize>,
    dim: int,
    dtype: DType,
    env: spec_fn(int) -> i32,
)
    requires
        idx_dims.len() == src_dims.len(),
        0 <= dim < src_dims.len(),
        shape_fits(src_dims),
        shape_fits(idx_dims),
        prod(src_dims) <= i32::MAX,
        prod(idx_dims) <= i32::MAX,
        forall|j: int| 0 <= j < src_dims.len() && j != dim ==> idx_dims[j] <= src_dims[j],
        gather_kernel(src_dims, idx_dims, dim, dtype).len() <= usize::MAX,
        0 <= env(3) < prod(idx_dims),
        0 <= env(4) < src_dims[dim],
    ensures
        int_value(gather_kernel(src_dims, idx_dims, dim, dtype), env, final_acc(6, 5, src_dims.len() as int))
            == Some(indexed_offset(idx_dims, src_dims, dim, env(3) as int, env(4) as int) as i32),
        0 <= indexed_offset(idx_dims, src_dims, dim, env(3) as int, env(4) as int) < prod(src_dims),
        offsets_setting(
            gather_kernel(src_dims, idx_dims, dim, dtype),
            env,
            6,
            3,
            5,
            4,
            dim,
            idx_dims,
            src_dims,
            env(3) as int,
            env(4) as int,
        ),
        ({
            let s = gather_kernel(src_dims, idx_dims, dim, dtype);
            let m = 6 + offsets_len(src_dims.len() as int);
            &&& load_at(s, env, 4) == Some((1usize, env(3)))
            &&& load_at(s, env, m) == Some(
                (0usize, indexed_offset(idx_dims, src_dims, dim, env(3) as int, env(4) as int) as i32),
            )
            &&& store_at(s, env, m + 1) == Some((2usize, env(3), var(m)))
        }),
{
    let n = idx_dims.len() as int;
    let s = gather_kernel(src_dims, idx_dims, dim, dtype);
    let mid = offset_iters(n, 6, 3, 5, 4, n, dim, strides(idx_dims), strides(src_dims));
    lemma_iters_len(n, 6, 3, 5, 4, n, dim, strides(idx_dims), strides(src_dims));
    assert(mid.len() == offsets_len(n));
    assert forall|q: int| 0 <= q < offsets_len(n) implies s[6 + q] == mid[q] by {}
    assert(int_value(s, env, 3) == Some(env(3)));
    assert(int_value(s, env, 4) == Some(env(4)));
    assert(int_value(s, env, 5) == Some(0i32));
    assert(offsets_setting(s, env, 6, 3, 5, 4, dim, idx_dims, src_dims, env(3) as int, env(4) as int));
    lemma_offsets_done(s, env, 6, 3, 5, 4, dim, idx_dims, src_dims, env(3) as int, env(4) as int);
}

/// In the kernel of `scatter`, for every flat position `r` of the index
/// tensor (the loop index) and every index `idx` loaded there that lies
/// inside the destination along `dim`: the offset that is stored to is the
/// row-major offset in the destination of the coordinates of `r`, with the
/// one along `dim` replaced by `idx`, and it lies inside the destination.
/// So the kernel first copies `self` (buffer `0`) into the result (buffer
/// `3`) element by element, then each iteration reads `idx` (buffer `1`) and
/// the value (buffer `2`) at `r` and stores that value into the result there.
/// This holds where the index tensor has the rank of the destination and is no
/// longer than it along the other dimensions, and both sizes fit in `i32`.
pub proof fn law_scatter_offset(
    dst_dims: Seq<usize>,
    idx_dims: Seq<usize>,
    dim: int,
    dtype: DType,
    env: spec_fn(int) -> i32,
)
    requires
        idx_dims.len() == dst_dims.len(),
        0 <= dim < dst_dims.len(),
        shape_fits(dst_dims),
        shape_fits(idx_dims),
        prod(dst_dims) <= i32::MAX,
        prod(idx_dims) <= i32::MAX,
        forall|j: int| 0 <= j < dst_dims.len() && j != dim ==> idx_dims[j] <= dst_dims[j],
        scatter_kernel(dst_dims, idx_dims, dim, dtype).len() <= usize::MAX,
        0 <= env(8) < prod(idx_dims),
        0 <= env(9) < dst_dims[dim],
    ensures
        int_value(scatter_kernel(dst_dims, idx_dims, dim, dtype), env, final_acc(12, 11, dst_dims.len() as int))
            == Some(indexed_offset(idx_dims, dst_dims, dim, env(8) as int, env(9) as int) as i32),
        0 <= indexed_offset(idx_dims, dst_dims, dim, env(8) as int, env(9) as int) < prod(dst_dims),
        offsets_setting(
            scatter_kernel(dst_dims, idx_dims, dim, dtype),
            env,
            12,
            8,
            11,
            9,
            dim,
            idx_dims,
            dst_dims,
            env(8) as int,
            env(9) as int,
        ),
        ({
            let s = scatter_kernel(dst_dims, idx_dims, dim, dtype);
            let m = 12 + offsets_len(dst_dims.len() as int);
            &&& load_at(s, env, 5) == Some((0usize, env(4)))
            &&& store_at(s, env, 6) == Some((3usize, env(4), var(5)))
            &&& load_at(s, env, 9) == Some((1usize, env(8)))
            &&& load_at(s, env, 10) == Some((2usize, env(8)))
            &&& store_at(s, env, m) == Some(
                (
                    3usize,
                    indexed_offset(idx_dims, dst_dims, dim, env(8) as int, env(9) as int) as i32,
                    var(10),
                ),
            )
        }),
{
    let n = idx_dims.len() as int;
    let s = scatter_kernel(dst_dims, idx_dims, dim, dtype);
    let mid = offset_iters(n, 12, 8, 11, 9, n, dim, strides(idx_dims), strides(dst_dims));
    lemma_iters_len(n, 12, 8, 11, 9, n, dim, strides(idx_dims), strides(dst_dims));
    assert(mid.len() == offsets_len(n));
    assert forall|q: int| 0 <= q < offsets_len(n) implies s[12 + q] == mid[q] by {}
    assert(int_value(s, env, 8) == Some(env(8)));
    assert(int_value(s, env, 9) == Some(env(9)));
    assert(int_value(s, env, 11) == Some(0i32));
    assert(offsets_setting(s, env, 12, 8, 11, 9, dim, idx_dims, dst_dims, env(8) as int, env(9) as int));
    lemma_offsets_done(s, env, 12, 8, 11, 9, dim, idx_dims, dst_dims, env(8) as int, env(9) as int);
}

/// With one index tensor, a gather from a tensor of shape `dims` reads, at
/// every position `r` with index `idx`, the very element of such a tensor that
/// a scatter into it writes at that position with that index: the load of the
/// gather kernel and the store of the scatter kernel use the same offset.
pub proof fn law_gather_reads_where_scatter_writes(
    dims: Seq<usize>,
    idx_dims: Seq<usize>,
    dim: int,
    dtype: DType,
    env_g: spec_fn(int) -> i32,
    env_s: spec_fn(int) -> i32,
)
    requires
        idx_dims.len() == dims.len(),
        0 <= dim < dims.len(),
        shape_fits(dims),
        shape_fits(idx_dims),
        prod(dims) <= i32::MAX,
        prod(idx_dims) <= i32::MAX,
        forall|j: int| 0 <= j < dims.len() && j != dim ==> idx_dims[j] <= dims[j],
        gather_kernel(dims, idx_dims, dim, dtype).len() <= usize::MAX,
        scatter_kernel(dims, idx_dims, dim, dtype).len() <= usize::MAX,
        0 <= env_g(3) < prod(idx_dims),
        0 <= env_g(4) < dims[dim],
        env_s(8) == env_g(3),
        env_s(9) == env_g(4),
    ensures
        ({
            let m_g = 6 + offsets_len(dims.len() as int);
            let m_s = 12 + offsets_len(dims.len() as int);
            let st = store_at(scatter_kernel(dims, idx_dims, dim, dtype), env_s, m_s);
            let ld = load_at(gather_kernel(dims, idx_dims, dim, dtype), env_g, m_g);
            &&& st is Some
            &&& ld is Some
            &&& (st->0).1 == (ld->0).1
        }),
{
    law_gather_offset(dims, idx_dims, dim, dtype, env_g);
    law_scatter_offset(dims, idx_dims, dim, dtype, env_s);
}

/// The kernel that unpacks `q8` values loops over every position
/// `0 .. num_elements`, and at each position `r` of its loop: the scale is
/// loaded from buffer `1` at the group `r / group_size`, the packed value
/// from buffer `0` at `r`, and their product (var `9`, the packed value cast
/// to `f32` times the scale) is stored into the result (buffer `2`) at `r`,
/// by a store inside the loop.
pub proof fn law_dequantize_q8_indices(
    num_elements: usize,
    group_size: usize,
    env: spec_fn(int) -> i32,
)
    requires
        num_elements <= i32::MAX,
        1 <= group_size <= i32::MAX,
        0 <= env(3) < num_elements,
    ensures
        ({
            let s = dequantize_q8_kernel(num_elements, group_size);
            let r = env(3) as int;
            &&& loop_at(s, 3) matches Some((lo, up, end)) && lo == 0 && up == num_elements && 10 < end
            &&& int_value(s, env, 5) == Some((r / group_size as int) as i32)
            &&& load_at(s, env, 6) == Some((1usize, (r / group_size as int) as i32))
            &&& load_at(s, env, 7) == Some((0usize, env(3)))
            &&& s[8] == un(UnaryOp::Cast(DType::F32), 7, DType::F32)
            &&& s[9] == crate::block::bin(B::Mul, 8, 6, DType::F32)
            &&& store_at(s, env, 10) == Some((2usize, env(3), var(9)))
        }),
{
    let s = dequantize_q8_kernel(num_elements, group_size);
    let r = env(3) as int;
    assert(int_value(s, env, 3) == Some(env(3)));
    assert(int_value(s, env, 4) == Some(group_size as i32));
    assert(0 <= r / group_size as int <= r) by {
        vstd::arithmetic::div_mod::lemma_div_pos_is_pos(r, group_size as int);
        vstd::arithmetic::div_mod::lemma_div_is_ordered_by_denominator(r, 1, group_size as int);
    }
    assert(int_value(s, env, 5) == Some((r / group_size as int) as i32));
}

/// The kernel that unpacks `q4` values loops over every packed position
/// `0 .. num_elements / 2`, and for every position `r` of that loop and
/// every non-negative packed value `p`
/// loaded there: the scale is loaded from buffer `1` at the group
/// `r / (group_size / 2)`, the packed value from buffer `0` at `r`; the low
/// nibble `p % 16` minus `8` (var `11`) and the high nibble
/// `(p / 16) % 16` minus `8` (var `17`), each cast and times the scale, are
/// stored into the result (buffer `2`) at `2 r` and `2 r + 1`, both inside it,
/// by stores inside the loop; so every position below `2 * (num_elements / 2)`
/// is written.
pub proof fn law_dequantize_q4_indices(
    num_elements: usize,
    group_size: usize,
    env: spec_fn(int) -> i32,
)
    requires
        num_elements <= i32::MAX,
        2 <= group_size <= i32::MAX,
        0 <= env(3) < num_elements / 2,
        0 <= env(7),
    ensures
        ({
            let s = dequantize_q4_kernel(num_elements, group_size);
            let r = env(3) as int;
            let p = env(7) as int;
            let g = (group_size / 2) as int;
            &&& loop_at(s, 3) matches Some((lo, up, end)) && lo == 0 && up == num_elements / 2 && 25 < end
            &&& int_value(s, env, 5) == Some((r / g) as i32)
            &&& load_at(s, env, 6) == Some((1usize, (r / g) as i32))
            &&& load_at(s, env, 7) == Some((0usize, env(3)))
            &&& int_value(s, env, 11) == Some((p % 16 - 8) as i32)
            &&& int_value(s, env, 17) == Some(((p / 16) % 16 - 8) as i32)
            &&& s[13] == crate::block::bin(B::Mul, 12, 6, DType::F32)
            &&& s[12] == un(UnaryOp::Cast(DType::F32), 11, DType::F32)
            &&& s[19] == crate::block::bin(B::Mul, 18, 6, DType::F32)
            &&& s[18] == un(UnaryOp::Cast(DType::F32), 17, DType::F32)
            &&& store_at(s, env, 24) == Some((2usize, (2 * r) as i32, var(13)))
            &&& store_at(s, env, 25) == Some((2usize, (2 * r + 1) as i32, var(19)))
            &&& 2 * r + 1 < num_elements
        }),
{
    let s = dequantize_q4_kernel(num_elements, group_size);
    let r = env(3) as int;
    let p = env(7) as int;
    let g = (group_size / 2) as int;
    assert(int_value(s, env, 3) == Some(env(3)));
    assert(int_value(s, env, 4) == Some(g as i32));
    assert(int_value(s, env, 7) == Some(env(7)));
    assert(0 <= r / g <= r) by {
        vstd::arithmetic::div_mod::lemma_div_pos_is_pos(r, g);
        vstd::arithmetic::div_mod::lemma_div_is_ordered_by_denominator(r, 1, g);
    }
    assert(int_value(s, env, 5) == Some((r / g) as i32));
    assert(int_value(s, env, 8) == Some(16i32));
    assert(int_value(s, env, 9) == Some((p % 16) as i32));
    assert(int_value(s, env, 10) == Some(8i32));
    assert(int_value(s, env, 11) == Some((p % 16 - 8) as i32));
    assert(int_value(s, env, 14) == Some(16i32));
    assert(0 <= p / 16 <= p) by {
        vstd::arithmetic::div_mod::lemma_div_pos_is_pos(p, 16);
    }
    assert(int_value(s, env, 15) == Some((p / 16) as i32));
    assert(int_value(s, env, 16) == Some(((p / 16) % 16) as i32));
    assert(int_value(s, env, 17) == Some(((p / 16) % 16 - 8) as i32));
    assert(int_value(s, env, 20) == Some(2i32));
    assert(int_value(s, env, 21) == Some((2 * r) as i32));
    assert(int_value(s, env, 22) == Some(1i32));
    assert(int_value(s, env, 23) == Some((2 * r + 1) as i32));
}

/// An operand that constant folding takes for the `i32` constant `c` has the
/// value `c` whatever the loop indices and loaded values are.
pub proof fn law_resolved_operand_is_constant(s: Seq<Instr>, env: spec_fn(int) -> i32, a: A, c: i32)
    requires
        resolve(s, a) == Some(Const::I32(c)),
        a matches A::Var(v) ==> v.0 < s.len(),
    ensures
        operand_value(s, env, a) == Some(c),
{
}

} // verus!
