//! Execution of integer kernels: what running a kernel does to the values of
//! its variables and to the contents of its global buffers, when every value
//! is an `i32`; and what whole scan, arg-max, gather and scatter kernels
//! store.
//!
//! A state holds the value of each variable that has one and the contents of
//! each global buffer, by the buffer's index. Integer arithmetic is checked as
//! in constant folding; an overflow, a store outside its buffer or an
//! instruction outside this integer fragment stops the run without a result.
//! A load outside its buffer gives a value nothing is known of.
use vstd::prelude::*;
use crate::block::{bin_c, load, store};
use crate::eval::{
    global_index, indexed_offset, int_value, law_gather_offset, law_scatter_offset, lemma_iters_len,
    lemma_offset3_bound, lemma_offsets_defined, lemma_offsets_shape, offset3, offset_instr, offsets_setting,
};
use crate::shape::{prod, shape_fits};
use crate::ssa::{a_refs, deps};
use crate::lang::BinaryOp as B;
use crate::tensor_ops::{
    argmax_kernel, final_acc, gather_kernel, offsets_len, pad_kernel, scan_kernel, scatter_kernel, strides,
};
use crate::fold::fold_i32;
use crate::lang::{A, Const, DType, Instr, UnaryOp};

verus! {

/// The value of an operand in a state.
pub open spec fn read(vals: Map<int, i32>, a: A) -> Option<i32> {
    match a {
        A::Const(Const::I32(c)) => Some(c),
        A::Var(v) => if vals.contains_key(v.0 as int) {
            Some(vals[v.0 as int])
        } else {
            None
        },
        _ => None,
    }
}

/// Runs instruction `k`, which is not a loop, on the state `(vals, mem)`.
pub open spec fn step(s: Seq<Instr>, k: int, vals: Map<int, i32>, mem: Map<usize, Seq<i32>>) -> Option<
    (Map<int, i32>, Map<usize, Seq<i32>>),
> {
    match s[k] {
        Instr::DefineGlobal { .. } => Some((vals, mem)),
        Instr::Const(Const::I32(c)) => Some((vals.insert(k, c), mem)),
        Instr::DefineAcc(Const::I32(c)) => Some((vals.insert(k, c), mem)),
        Instr::Binary { op, lhs, rhs, dtype: DType::I32 } => match (read(vals, lhs), read(vals, rhs)) {
            (Some(x), Some(y)) => match fold_i32(op, x, y) {
                Some(Const::I32(z)) => Some((vals.insert(k, z), mem)),
                _ => None,
            },
            _ => None,
        },
        Instr::Where { cond, on_true, on_false, dtype: DType::I32 } => match (
            read(vals, cond),
            read(vals, on_true),
            read(vals, on_false),
        ) {
            (Some(c), Some(t), Some(f)) => Some((vals.insert(k, if c != 0 { t } else { f }), mem)),
            _ => None,
        },
        Instr::Assign { dst, src } => match read(vals, src) {
            Some(v) => Some((vals.insert(dst.0 as int, v), mem)),
            None => None,
        },
        Instr::Load { src, offset, dtype: DType::I32 } => match (global_index(s, src), read(vals, offset)) {
            (Some(b), Some(o)) => if mem.contains_key(b) && 0 <= o < mem[b].len() {
                Some((vals.insert(k, mem[b][o as int]), mem))
            } else if mem.contains_key(b) {
                Some((vals.insert(k, vstd::pervasive::arbitrary::<i32>()), mem))
            } else {
                None
            },
            _ => None,
        },
        Instr::Unary { op, arg, dtype: DType::I32 } => match read(vals, arg) {
            Some(v) => if op == UnaryOp::Id || op == UnaryOp::Cast(DType::I32) {
                Some((vals.insert(k, v), mem))
            } else {
                None
            },
            None => None,
        },
        Instr::Store { dst, offset, value, dtype: DType::I32 } => match (
            global_index(s, dst),
            read(vals, offset),
            read(vals, value),
        ) {
            (Some(b), Some(o), Some(v)) => if mem.contains_key(b) && 0 <= o < mem[b].len() {
                Some((vals, mem.insert(b, mem[b].update(o as int, v))))
            } else {
                None
            },
            _ => None,
        },
        _ => None,
    }
}

/// Runs the instructions `pc .. stop` of kernel `s` from the state
/// `(vals, mem)`. A loop `Range { lo, up, step: 1, end_idx }` runs the
/// instructions between it and its `EndRange` once for each index in
/// `lo .. up`, the index being the value of the range's variable.
pub open spec fn run(
    s: Seq<Instr>,
    pc: int,
    stop: int,
    vals: Map<int, i32>,
    mem: Map<usize, Seq<i32>>,
) -> Option<(Map<int, i32>, Map<usize, Seq<i32>>)>
    decreases stop - pc, 0int,
{
    if pc >= stop {
        Some((vals, mem))
    } else if pc < 0 || stop > s.len() {
        None
    } else {
        match s[pc] {
            Instr::Range { lo, up, step, end_idx } => {
                let e = end_idx.0 as int;
                if step == 1 && pc < e < stop && s[e] is EndRange {
                    match (read(vals, lo), read(vals, up)) {
                        (Some(l), Some(u)) => match run_loop(s, pc, e, l as int, u as int, vals, mem) {
                            Some((v2, m2)) => run(s, e + 1, stop, v2, m2),
                            None => None,
                        },
                        _ => None,
                    }
                } else {
                    None
                }
            },
            _ => match step(s, pc, vals, mem) {
                Some((v2, m2)) => run(s, pc + 1, stop, v2, m2),
                None => None,
            },
        }
    }
}

/// Runs the body of the loop at `r` (ending at `e`) for the indices
/// `idx .. up`.
pub open spec fn run_loop(
    s: Seq<Instr>,
    r: int,
    e: int,
    idx: int,
    up: int,
    vals: Map<int, i32>,
    mem: Map<usize, Seq<i32>>,
) -> Option<(Map<int, i32>, Map<usize, Seq<i32>>)>
    decreases e - r, up - idx,
{
    if idx >= up || r >= e {
        Some((vals, mem))
    } else {
        match run(s, r + 1, e, vals.insert(r, idx as i32), mem) {
            Some((v2, m2)) => run_loop(s, r, e, idx + 1, up, v2, m2),
            None => None,
        }
    }
}

/// `init op xs[0] op ... op xs[j]`, with the checked `i32` arithmetic of
/// constant folding; no value when a step overflows.
pub open spec fn scan_at(op: B, init: i32, xs: Seq<i32>, j: int) -> Option<i32>
    decreases j + 1,
{
    if j < 0 {
        Some(init)
    } else {
        match scan_at(op, init, xs, j - 1) {
            Some(acc) => match fold_i32(op, acc, xs[j]) {
                Some(Const::I32(z)) => Some(z),
                _ => None,
            },
            None => None,
        }
    }
}

proof fn lemma_scan_prefix(op: B, init: i32, xs: Seq<i32>, j: int, k: int)
    requires
        -1 <= k <= j,
        scan_at(op, init, xs, j) is Some,
    ensures
        scan_at(op, init, xs, k) is Some,
    decreases j - k,
{
    if k < j {
        lemma_scan_prefix(op, init, xs, j - 1, k);
    }
}

/// The elements of buffer `src` along the axis at position `(o, i)` of an
/// `outer x axis x inner` tensor.
pub open spec fn column(src: Seq<i32>, o: int, i: int, axis_len: int, inner: int) -> Seq<i32> {
    Seq::new(axis_len as nat, |a: int| src[offset3(o, a, i, axis_len, inner)])
}

/// `dst` holds `vals[a]` at the offset of `(o, a, i)` for every `a < k`, and
/// `orig` everywhere else.
pub open spec fn column_written(
    dst: Seq<i32>,
    orig: Seq<i32>,
    o: int,
    i: int,
    axis_len: int,
    inner: int,
    k: int,
    vals: spec_fn(int) -> i32,
) -> bool {
    &&& dst.len() == orig.len()
    &&& forall|a: int| 0 <= a < k ==> dst[#[trigger] offset3(o, a, i, axis_len, inner)] == vals(a)
    &&& forall|q: int|
        0 <= q < dst.len() && (forall|a: int| 0 <= a < k ==> q != #[trigger] offset3(o, a, i, axis_len, inner))
            ==> dst[q] == orig[q]
}

/// The state before a scan's loop over the axis at `(o, i)`.
pub open spec fn scan_ready(
    vals: Map<int, i32>,
    mem: Map<usize, Seq<i32>>,
    outer: usize,
    axis_len: usize,
    inner: usize,
) -> bool {
    &&& outer * (axis_len * inner) <= i32::MAX
    &&& vals.contains_key(2) && 0 <= vals[2] < outer
    &&& vals.contains_key(3) && 0 <= vals[3] < inner
    &&& mem.contains_key(0usize) && mem[0usize].len() >= outer * (axis_len * inner)
    &&& mem.contains_key(1usize) && mem[1usize].len() >= outer * (axis_len * inner)
}

#[verifier::spinoff_prover]
#[verifier::rlimit(60)]
proof fn lemma_scan_body(
    outer: usize,
    axis_len: usize,
    inner: usize,
    c0: i32,
    op: B,
    vals: Map<int, i32>,
    mem: Map<usize, Seq<i32>>,
    va: Map<int, i32>,
    ma: Map<usize, Seq<i32>>,
    a: int,
)
    requires
        scan_ready(vals, mem, outer, axis_len, inner),
        0 <= a < axis_len,
        va.contains_key(2) && va[2] == vals[2],
        va.contains_key(3) && va[3] == vals[3],
        va.contains_key(4),
        ma.dom() == mem.dom(),
        ma[0usize] == mem[0usize],
        ma[1usize].len() == mem[1usize].len(),
        fold_i32(
            op,
            va[4],
            mem[0usize][offset3(vals[2] as int, a, vals[3] as int, axis_len as int, inner as int)],
        ) is Some,
    ensures
        ({
            let s = scan_kernel(outer, axis_len, inner, DType::I32, Const::I32(c0), op);
            let off = offset3(vals[2] as int, a, vals[3] as int, axis_len as int, inner as int);
            let x = mem[0usize][off];
            let z = fold_i32(op, va[4], x)->Some_0->I32_0;
            &&& fold_i32(op, va[4], x) matches Some(Const::I32(_))
            &&& run(s, 6, 14, va.insert(5, a as i32), ma) matches Some((vb, mb))
            &&& vb.contains_key(2) && vb[2] == vals[2]
            &&& vb.contains_key(3) && vb[3] == vals[3]
            &&& vb.contains_key(4) && vb[4] == z
            &&& mb == ma.insert(1usize, ma[1usize].update(off, z))
        }),
{
    let s = scan_kernel(outer, axis_len, inner, DType::I32, Const::I32(c0), op);
    let (o, i) = (vals[2] as int, vals[3] as int);
    let n = axis_len as int;
    lemma_offset3_bound(o, a, i, outer as int, n, inner as int);
    assert(inner <= axis_len * inner) by (nonlinear_arith)
        requires
            0 <= a < axis_len,
            0 <= inner,
    ;
    assert(axis_len <= axis_len * inner) by (nonlinear_arith)
        requires
            0 <= i < inner,
            0 <= axis_len,
    ;
    let off = offset3(o, a, i, n, inner as int);
    let x = mem[0usize][off];
    assert(fold_i32(op, va[4], x) matches Some(Const::I32(_)));
    let z = fold_i32(op, va[4], x)->Some_0->I32_0;
    let v5 = va.insert(5, a as i32);
    let v6 = v5.insert(6, (o * (n * inner)) as i32);
    let v7 = v6.insert(7, (a * inner) as i32);
    let v8 = v7.insert(8, (o * (n * inner) + a * inner) as i32);
    let v9 = v8.insert(9, off as i32);
    let v10 = v9.insert(10, x);
    let v11 = v10.insert(11, z);
    let v12 = v11.insert(4, z);
    let m13 = ma.insert(1usize, ma[1usize].update(off, z));
    assert(s[6] == bin_c(B::Mul, 2, (axis_len * inner) as i32));
    assert(step(s, 6, v5, ma) == Some((v6, ma)));
    assert(step(s, 7, v6, ma) == Some((v7, ma)));
    assert(step(s, 8, v7, ma) == Some((v8, ma)));
    assert(step(s, 9, v8, ma) == Some((v9, ma)));
    assert(global_index(s, crate::lang::VarId(0)) == Some(0usize));
    assert(global_index(s, crate::lang::VarId(1)) == Some(1usize));
    assert(step(s, 10, v9, ma) == Some((v10, ma)));
    assert(step(s, 11, v10, ma) == Some((v11, ma)));
    assert(step(s, 12, v11, ma) == Some((v12, ma)));
    assert(step(s, 13, v12, ma) == Some((v12, m13)));
    assert(run(s, 14, 14, v12, m13) == Some((v12, m13)));
    assert(run(s, 13, 14, v12, ma) == Some((v12, m13)));
    assert(run(s, 12, 14, v11, ma) == Some((v12, m13)));
    assert(run(s, 11, 14, v10, ma) == Some((v12, m13)));
    assert(run(s, 10, 14, v9, ma) == Some((v12, m13)));
    assert(run(s, 9, 14, v8, ma) == Some((v12, m13)));
    assert(run(s, 8, 14, v7, ma) == Some((v12, m13)));
    assert(run(s, 7, 14, v6, ma) == Some((v12, m13)));
    assert(run(s, 6, 14, v5, ma) == Some((v12, m13)));
}

proof fn lemma_offset3_injective(o: int, a: int, b: int, i: int, axis_len: int, inner: int)
    requires
        1 <= inner,
        offset3(o, a, i, axis_len, inner) == offset3(o, b, i, axis_len, inner),
    ensures
        a == b,
{
    assert(a * inner == b * inner);
    assert((a - b) * inner == a * inner - b * inner) by (nonlinear_arith);
    assert(a == b) by (nonlinear_arith)
        requires
            (a - b) * inner == 0,
            1 <= inner,
    ;
}

proof fn lemma_scan_loop(
    outer: usize,
    axis_len: usize,
    inner: usize,
    c0: i32,
    op: B,
    vals: Map<int, i32>,
    mem: Map<usize, Seq<i32>>,
    va: Map<int, i32>,
    ma: Map<usize, Seq<i32>>,
    a: int,
)
    requires
        scan_ready(vals, mem, outer, axis_len, inner),
        0 <= a <= axis_len,
        scan_at(
            op,
            c0,
            column(mem[0usize], vals[2] as int, vals[3] as int, axis_len as int, inner as int),
            axis_len - 1,
        ) is Some,
        va.contains_key(2) && va[2] == vals[2],
        va.contains_key(3) && va[3] == vals[3],
        va.contains_key(4) && va[4] == scan_at(
            op,
            c0,
            column(mem[0usize], vals[2] as int, vals[3] as int, axis_len as int, inner as int),
            a - 1,
        )->Some_0,
        ma.dom() == mem.dom(),
        ma[0usize] == mem[0usize],
        column_written(
            ma[1usize],
            mem[1usize],
            vals[2] as int,
            vals[3] as int,
            axis_len as int,
            inner as int,
            a,
            |b: int|
                scan_at(
                    op,
                    c0,
                    column(mem[0usize], vals[2] as int, vals[3] as int, axis_len as int, inner as int),
                    b,
                )->Some_0,
        ),
    ensures
        ({
            let s = scan_kernel(outer, axis_len, inner, DType::I32, Const::I32(c0), op);
            let col = column(mem[0usize], vals[2] as int, vals[3] as int, axis_len as int, inner as int);
            &&& run_loop(s, 5, 14, a, axis_len as int, va, ma) matches Some((vb, mb))
            &&& vb.contains_key(2) && vb[2] == vals[2]
            &&& mb.dom() == mem.dom()
            &&& mb[0usize] == mem[0usize]
            &&& column_written(
                mb[1usize],
                mem[1usize],
                vals[2] as int,
                vals[3] as int,
                axis_len as int,
                inner as int,
                axis_len as int,
                |b: int| scan_at(op, c0, col, b)->Some_0,
            )
        }),
    decreases axis_len - a,
{
    let s = scan_kernel(outer, axis_len, inner, DType::I32, Const::I32(c0), op);
    let (o, i) = (vals[2] as int, vals[3] as int);
    let n = axis_len as int;
    let col = column(mem[0usize], o, i, n, inner as int);
    let f = |b: int| scan_at(op, c0, col, b)->Some_0;
    if a < n {
        lemma_scan_prefix(op, c0, col, n - 1, a);
        lemma_offset3_bound(o, a, i, outer as int, n, inner as int);
        let off = offset3(o, a, i, n, inner as int);
        assert(col[a] == mem[0usize][off]);
        lemma_scan_body(outer, axis_len, inner, c0, op, vals, mem, va, ma, a);
        let (vb, mb) = run(s, 6, 14, va.insert(5, a as i32), ma)->Some_0;
        assert(run_loop(s, 5, 14, a, n, va, ma) == run_loop(s, 5, 14, a + 1, n, vb, mb));
        assert(vb[4] == f(a));
        assert(mb[1usize] == ma[1usize].update(off, f(a)));
        assert(mb.dom() =~= mem.dom());
        assert(mb[0usize] == mem[0usize]);
        assert forall|b: int| 0 <= b < a + 1 implies mb[1usize][#[trigger] offset3(o, b, i, n, inner as int)]
            == f(b) by {
            lemma_offset3_bound(o, b, i, outer as int, n, inner as int);
            if b < a {
                if offset3(o, b, i, n, inner as int) == off {
                    lemma_offset3_injective(o, a, b, i, n, inner as int);
                }
            }
        }
        assert forall|q: int|
            0 <= q < mb[1usize].len() && (forall|b: int|
                0 <= b < a + 1 ==> q != #[trigger] offset3(o, b, i, n, inner as int)) implies mb[1usize][q]
            == mem[1usize][q] by {
            assert(q != offset3(o, a, i, n, inner as int));
            assert forall|b: int| 0 <= b < a implies q != #[trigger] offset3(o, b, i, n, inner as int) by {
                assert(q != offset3(o, b, i, n, inner as int));
            }
        }
        lemma_scan_loop(outer, axis_len, inner, c0, op, vals, mem, vb, mb, a + 1);
    }
}

/// At every position `(o, i)` that the outer loops of a scan kernel over
/// `i32` values reach, running the accumulator's definition and the loop
/// along the axis stores at the offset of each `(o, a, i)` of the result
/// (buffer `1`) the running value `init op x[0] op ... op x[a]` of the
/// source's elements `x` along that axis (buffer `0`), and changes nothing
/// else; where no step of the running value overflows. For `cumsum` the
/// operation is `+` from `0`, for `cumprod` it is `*` from `1`.
pub proof fn law_scan_values(
    outer: usize,
    axis_len: usize,
    inner: usize,
    c0: i32,
    op: B,
    vals: Map<int, i32>,
    mem: Map<usize, Seq<i32>>,
)
    requires
        scan_ready(vals, mem, outer, axis_len, inner),
        scan_at(
            op,
            c0,
            column(mem[0usize], vals[2] as int, vals[3] as int, axis_len as int, inner as int),
            axis_len - 1,
        ) is Some,
    ensures
        ({
            let s = scan_kernel(outer, axis_len, inner, DType::I32, Const::I32(c0), op);
            let col = column(mem[0usize], vals[2] as int, vals[3] as int, axis_len as int, inner as int);
            &&& run(s, 4, 15, vals, mem) matches Some((v2, m2))
            &&& v2.contains_key(2) && v2[2] == vals[2]
            &&& m2.dom() == mem.dom()
            &&& m2[0usize] == mem[0usize]
            &&& column_written(
                m2[1usize],
                mem[1usize],
                vals[2] as int,
                vals[3] as int,
                axis_len as int,
                inner as int,
                axis_len as int,
                |a: int| scan_at(op, c0, col, a)->Some_0,
            )
        }),
{
    let s = scan_kernel(outer, axis_len, inner, DType::I32, Const::I32(c0), op);
    let (o, i) = (vals[2] as int, vals[3] as int);
    let n = axis_len as int;
    assert(axis_len <= outer * (axis_len * inner)) by (nonlinear_arith)
        requires
            0 <= o < outer,
            0 <= i < inner,
            0 <= axis_len,
    ;
    let v4 = vals.insert(4, c0);
    assert(step(s, 4, vals, mem) == Some((v4, mem)));
    assert(column_written(
        mem[1usize],
        mem[1usize],
        o,
        i,
        n,
        inner as int,
        0,
        |a: int| scan_at(op, c0, column(mem[0usize], o, i, n, inner as int), a)->Some_0,
    ));
    lemma_scan_loop(outer, axis_len, inner, c0, op, vals, mem, v4, mem, 0);
    let (vb, mb) = run_loop(s, 5, 14, 0, n, v4, mem)->Some_0;
    assert(run(s, 15, 15, vb, mb) == Some((vb, mb)));
    assert(run(s, 5, 15, v4, mem) == Some((vb, mb)));
    assert(run(s, 4, 15, vals, mem) == Some((vb, mb)));
}

/// The largest of `xs[0 .. a]` and the first index where it occurs, as the
/// arg-max kernel tracks them: starting from the smallest `i32` at index `0`,
/// an element replaces the best so far only when it is strictly greater.
pub open spec fn best(xs: Seq<i32>, a: int) -> (i32, int)
    decreases a,
{
    if a <= 0 {
        (i32::MIN, 0)
    } else {
        let (v, k) = best(xs, a - 1);
        if xs[a - 1] > v {
            (xs[a - 1], a - 1)
        } else {
            (v, k)
        }
    }
}

/// Over a non-empty prefix, `best` is its largest element and the first
/// index where that element occurs.
pub proof fn lemma_best_is_first_max(xs: Seq<i32>, a: int)
    requires
        1 <= a <= xs.len(),
    ensures
        0 <= best(xs, a).1 < a,
        xs[best(xs, a).1] == best(xs, a).0,
        forall|j: int| 0 <= j < a ==> xs[j] <= best(xs, a).0,
        forall|j: int| 0 <= j < best(xs, a).1 ==> xs[j] < best(xs, a).0,
    decreases a,
{
    let p = best(xs, a - 1);
    assert(best(xs, a) == (if xs[a - 1] > p.0 {
        (xs[a - 1], a - 1)
    } else {
        p
    }));
    if a > 1 {
        lemma_best_is_first_max(xs, a - 1);
    } else {
        assert(p == (i32::MIN, 0int));
    }
}

/// The state before an arg-max kernel's work at position `(o, i)`.
pub open spec fn argmax_ready(
    vals: Map<int, i32>,
    mem: Map<usize, Seq<i32>>,
    outer: usize,
    axis_len: usize,
    inner: usize,
) -> bool {
    &&& outer * (axis_len * inner) <= i32::MAX
    &&& outer * inner <= i32::MAX
    &&& vals.contains_key(2) && 0 <= vals[2] < outer
    &&& vals.contains_key(3) && 0 <= vals[3] < inner
    &&& mem.contains_key(0usize) && mem[0usize].len() >= outer * (axis_len * inner)
    &&& mem.contains_key(1usize) && mem[1usize].len() >= outer * inner
}

#[verifier::spinoff_prover]
#[verifier::rlimit(80)]
proof fn lemma_argmax_body(
    outer: usize,
    axis_len: usize,
    inner: usize,
    vals: Map<int, i32>,
    mem: Map<usize, Seq<i32>>,
    va: Map<int, i32>,
    a: int,
)
    requires
        argmax_ready(vals, mem, outer, axis_len, inner),
        0 <= a < axis_len,
        va.contains_key(2) && va[2] == vals[2],
        va.contains_key(3) && va[3] == vals[3],
        va.contains_key(4),
        va.contains_key(5),
        0 <= va[5] < axis_len,
    ensures
        ({
            let s = argmax_kernel(outer, axis_len, inner, DType::I32);
            let x = mem[0usize][offset3(vals[2] as int, a, vals[3] as int, axis_len as int, inner as int)];
            &&& run(s, 7, 17, va.insert(6, a as i32), mem) matches Some((vb, mb))
            &&& mb == mem
            &&& vb.contains_key(2) && vb[2] == vals[2]
            &&& vb.contains_key(3) && vb[3] == vals[3]
            &&& vb.contains_key(4) && vb[4] == if x > va[4] { x } else { va[4] }
            &&& vb.contains_key(5) && vb[5] == if x > va[4] { a as i32 } else { va[5] }
        }),
{
    let s = argmax_kernel(outer, axis_len, inner, DType::I32);
    let (o, i) = (vals[2] as int, vals[3] as int);
    let n = axis_len as int;
    lemma_offset3_bound(o, a, i, outer as int, n, inner as int);
    assert(inner <= axis_len * inner) by (nonlinear_arith)
        requires
            0 <= a < axis_len,
            0 <= inner,
    ;
    assert(axis_len <= axis_len * inner) by (nonlinear_arith)
        requires
            0 <= i < inner,
            0 <= axis_len,
    ;
    let off = offset3(o, a, i, n, inner as int);
    let x = mem[0usize][off];
    let g: i32 = if x > va[4] { 1 } else { 0 };
    let nv: i32 = if x > va[4] { x } else { va[4] };
    let ni: i32 = if x > va[4] { a as i32 } else { va[5] };
    let v6 = va.insert(6, a as i32);
    let v7 = v6.insert(7, (o * (n * inner)) as i32);
    let v8 = v7.insert(8, (a * inner) as i32);
    let v9 = v8.insert(9, (o * (n * inner) + a * inner) as i32);
    let v10 = v9.insert(10, off as i32);
    let v11 = v10.insert(11, x);
    let v12 = v11.insert(12, g);
    let v13 = v12.insert(13, nv);
    let v14 = v13.insert(14, ni);
    let v15 = v14.insert(4, nv);
    let v16 = v15.insert(5, ni);
    assert(global_index(s, crate::lang::VarId(0)) == Some(0usize));
    assert(step(s, 7, v6, mem) == Some((v7, mem)));
    assert(step(s, 8, v7, mem) == Some((v8, mem)));
    assert(step(s, 9, v8, mem) == Some((v9, mem)));
    assert(step(s, 10, v9, mem) == Some((v10, mem)));
    assert(step(s, 11, v10, mem) == Some((v11, mem)));
    assert(step(s, 12, v11, mem) == Some((v12, mem)));
    assert(step(s, 13, v12, mem) == Some((v13, mem)));
    assert(step(s, 14, v13, mem) == Some((v14, mem)));
    assert(step(s, 15, v14, mem) == Some((v15, mem)));
    assert(step(s, 16, v15, mem) == Some((v16, mem)));
    assert(run(s, 17, 17, v16, mem) == Some((v16, mem)));
    assert(run(s, 16, 17, v15, mem) == Some((v16, mem)));
    assert(run(s, 15, 17, v14, mem) == Some((v16, mem)));
    assert(run(s, 14, 17, v13, mem) == Some((v16, mem)));
    assert(run(s, 13, 17, v12, mem) == Some((v16, mem)));
    assert(run(s, 12, 17, v11, mem) == Some((v16, mem)));
    assert(run(s, 11, 17, v10, mem) == Some((v16, mem)));
    assert(run(s, 10, 17, v9, mem) == Some((v16, mem)));
    assert(run(s, 9, 17, v8, mem) == Some((v16, mem)));
    assert(run(s, 8, 17, v7, mem) == Some((v16, mem)));
    assert(run(s, 7, 17, v6, mem) == Some((v16, mem)));
}

proof fn lemma_argmax_loop(
    outer: usize,
    axis_len: usize,
    inner: usize,
    vals: Map<int, i32>,
    mem: Map<usize, Seq<i32>>,
    va: Map<int, i32>,
    a: int,
)
    requires
        argmax_ready(vals, mem, outer, axis_len, inner),
        0 <= a <= axis_len,
        va.contains_key(2) && va[2] == vals[2],
        va.contains_key(3) && va[3] == vals[3],
        ({
            let col = column(mem[0usize], vals[2] as int, vals[3] as int, axis_len as int, inner as int);
            &&& va.contains_key(4) && va[4] == best(col, a).0
            &&& va.contains_key(5) && va[5] == best(col, a).1
        }),
    ensures
        ({
            let s = argmax_kernel(outer, axis_len, inner, DType::I32);
            let col = column(mem[0usize], vals[2] as int, vals[3] as int, axis_len as int, inner as int);
            &&& run_loop(s, 6, 17, a, axis_len as int, va, mem) matches Some((vb, mb))
            &&& mb == mem
            &&& vb.contains_key(2) && vb[2] == vals[2]
            &&& vb.contains_key(3) && vb[3] == vals[3]
            &&& vb.contains_key(5) && vb[5] == best(col, axis_len as int).1
        }),
    decreases axis_len - a,
{
    let s = argmax_kernel(outer, axis_len, inner, DType::I32);
    let (o, i) = (vals[2] as int, vals[3] as int);
    let n = axis_len as int;
    let col = column(mem[0usize], o, i, n, inner as int);
    if a < n {
        assert(axis_len <= outer * (axis_len * inner)) by (nonlinear_arith)
            requires
                0 <= vals[2] < outer,
                0 <= vals[3] < inner,
                0 <= axis_len,
        ;
        if a >= 1 {
            lemma_best_is_first_max(col, a);
        }
        lemma_offset3_bound(o, a, i, outer as int, n, inner as int);
        assert(col[a] == mem[0usize][offset3(o, a, i, n, inner as int)]);
        lemma_argmax_body(outer, axis_len, inner, vals, mem, va, a);
        let (vb, mb) = run(s, 7, 17, va.insert(6, a as i32), mem)->Some_0;
        assert(run_loop(s, 6, 17, a, n, va, mem) == run_loop(s, 6, 17, a + 1, n, vb, mb));
        let p = best(col, a);
        assert(best(col, a + 1) == (if col[a] > p.0 {
            (col[a], a)
        } else {
            p
        }));
        lemma_argmax_loop(outer, axis_len, inner, vals, mem, vb, a + 1);
    }
}

/// At every position `(o, i)` that the outer loops of the arg-max kernel
/// over `i32` values reach, running the accumulators' definitions, the loop
/// along the axis and the store writes into the result (buffer `1`), at the
/// offset of `(o, i)` in the shape whose axis has length one, the index that
/// `best` gives for the source's elements along the axis (buffer `0`), and
/// changes nothing else. Along a non-empty axis that index is the first
/// position of the largest element.
#[verifier::spinoff_prover]
#[verifier::rlimit(60)]
pub proof fn law_argmax_values(
    outer: usize,
    axis_len: usize,
    inner: usize,
    vals: Map<int, i32>,
    mem: Map<usize, Seq<i32>>,
)
    requires
        argmax_ready(vals, mem, outer, axis_len, inner),
    ensures
        ({
            let s = argmax_kernel(outer, axis_len, inner, DType::I32);
            let (o, i) = (vals[2] as int, vals[3] as int);
            let col = column(mem[0usize], o, i, axis_len as int, inner as int);
            let k = best(col, axis_len as int).1;
            &&& run(s, 4, 21, vals, mem) matches Some((v2, m2))
            &&& v2.contains_key(2) && v2[2] == vals[2]
            &&& m2 == mem.insert(1usize, mem[1usize].update(o * inner + i, k as i32))
            &&& axis_len >= 1 ==> {
                &&& 0 <= k < axis_len
                &&& forall|j: int| 0 <= j < axis_len ==> col[j] <= col[k]
                &&& forall|j: int| 0 <= j < k ==> col[j] < col[k]
            }
        }),
{
    let s = argmax_kernel(outer, axis_len, inner, DType::I32);
    let (o, i) = (vals[2] as int, vals[3] as int);
    let n = axis_len as int;
    let col = column(mem[0usize], o, i, n, inner as int);
    let k = best(col, n).1;
    if n >= 1 {
        lemma_best_is_first_max(col, n);
    }
    assert(inner <= outer * inner) by (nonlinear_arith)
        requires
            0 <= o < outer,
            0 <= inner,
    ;
    assert(o * inner + i < outer * inner) by (nonlinear_arith)
        requires
            0 <= o < outer,
            0 <= i < inner,
    ;
    assert(0 <= o * inner) by (nonlinear_arith)
        requires
            0 <= o,
            0 <= inner,
    ;
    assert(n <= outer * (n * inner)) by (nonlinear_arith)
        requires
            0 <= o < outer,
            0 <= i < inner,
            0 <= n,
    ;
    let v4 = vals.insert(4, i32::MIN);
    let v5 = v4.insert(5, 0i32);
    assert(step(s, 4, vals, mem) == Some((v4, mem)));
    assert(step(s, 5, v4, mem) == Some((v5, mem)));
    assert(best(col, 0) == (i32::MIN, 0int));
    lemma_argmax_loop(outer, axis_len, inner, vals, mem, v5, 0);
    let (vb, mb) = run_loop(s, 6, 17, 0, n, v5, mem)->Some_0;
    let v18 = vb.insert(18, (o * inner) as i32);
    let v19 = v18.insert(19, (o * inner + i) as i32);
    let m20 = mem.insert(1usize, mem[1usize].update(o * inner + i, k as i32));
    assert(global_index(s, crate::lang::VarId(1)) == Some(1usize));
    assert(step(s, 18, vb, mem) == Some((v18, mem)));
    assert(step(s, 19, v18, mem) == Some((v19, mem)));
    assert(step(s, 20, v19, mem) == Some((v19, m20)));
    assert(run(s, 21, 21, v19, m20) == Some((v19, m20)));
    assert(run(s, 20, 21, v19, mem) == Some((v19, m20)));
    assert(run(s, 19, 21, v18, mem) == Some((v19, m20)));
    assert(run(s, 18, 21, vb, mem) == Some((v19, m20)));
    assert(run(s, 6, 21, v5, mem) == Some((v19, m20)));
    assert(run(s, 5, 21, v4, mem) == Some((v19, m20)));
    assert(run(s, 4, 21, vals, mem) == Some((v19, m20)));
}

/// The coordinates `(o, a, i)` of a row-major offset `q` in a tensor seen as
/// `outer x axis x inner`.
pub open spec fn coords3(q: int, axis_len: int, inner: int) -> (int, int, int) {
    (q / (axis_len * inner), (q % (axis_len * inner)) / inner, q % inner)
}

/// Row-major offsets and coordinates correspond one to one.
pub proof fn lemma_coords3(o: int, a: int, i: int, axis_len: int, inner: int)
    requires
        0 <= o,
        0 <= a < axis_len,
        0 <= i < inner,
    ensures
        coords3(offset3(o, a, i, axis_len, inner), axis_len, inner) == (o, a, i),
{
    let m = axis_len * inner;
    let q = offset3(o, a, i, axis_len, inner);
    assert(0 <= a * inner + i < axis_len * inner) by (nonlinear_arith)
        requires
            0 <= a < axis_len,
            0 <= i < inner,
    ;
    vstd::arithmetic::div_mod::lemma_fundamental_div_mod_converse(q, m, o, a * inner + i);
    vstd::arithmetic::div_mod::lemma_fundamental_div_mod_converse(a * inner + i, inner, a, i);
    assert(q == (o * axis_len + a) * inner + i) by (nonlinear_arith)
        requires
            q == o * (axis_len * inner) + a * inner + i,
    ;
    vstd::arithmetic::div_mod::lemma_fundamental_div_mod_converse(q, inner, o * axis_len + a, i);
}

/// Every offset inside the tensor is the offset of its coordinates.
pub proof fn lemma_offset3_of_coords(q: int, outer: int, axis_len: int, inner: int)
    requires
        0 <= axis_len,
        0 <= inner,
        0 <= q < outer * (axis_len * inner),
    ensures
        ({
            let (o, a, i) = coords3(q, axis_len, inner);
            &&& 0 <= o < outer
            &&& 0 <= a < axis_len
            &&& 0 <= i < inner
            &&& q == offset3(o, a, i, axis_len, inner)
        }),
{
    let m = axis_len * inner;
    assert(m >= 0) by (nonlinear_arith)
        requires
            m == axis_len * inner,
            0 <= axis_len,
            0 <= inner,
    ;
    assert(m > 0) by (nonlinear_arith)
        requires
            0 <= q < outer * m,
            m >= 0,
    ;
    assert(inner > 0 && axis_len > 0) by (nonlinear_arith)
        requires
            m == axis_len * inner,
            m > 0,
            inner >= 0,
            axis_len >= 0,
    ;
    let (o, a, i) = coords3(q, axis_len, inner);
    vstd::arithmetic::div_mod::lemma_fundamental_div_mod(q, m);
    vstd::arithmetic::div_mod::lemma_mod_pos_bound(q, m);
    let rm = q % m;
    vstd::arithmetic::div_mod::lemma_fundamental_div_mod(rm, inner);
    vstd::arithmetic::div_mod::lemma_mod_pos_bound(rm, inner);
    vstd::arithmetic::div_mod::lemma_div_pos_is_pos(q, m);
    vstd::arithmetic::div_mod::lemma_div_pos_is_pos(rm, inner);
    vstd::arithmetic::div_mod::lemma_mod_mod(q, inner, axis_len);
    assert(m == inner * axis_len) by (nonlinear_arith)
        requires
            m == axis_len * inner,
    ;
    assert(o < outer) by (nonlinear_arith)
        requires
            q == m * o + rm,
            0 <= rm,
            q < outer * m,
            m > 0,
    ;
    assert(rm / inner < axis_len) by (nonlinear_arith)
        requires
            rm == inner * (rm / inner) + rm % inner,
            0 <= rm % inner,
            rm < m,
            m == axis_len * inner,
            inner > 0,
    ;
    assert(q == o * m + (rm / inner) * inner + rm % inner) by (nonlinear_arith)
        requires
            q == m * o + rm,
            rm == inner * (rm / inner) + rm % inner,
    ;
}

/// The value a scan leaves at `(o, a, i)`: the running value along the axis
/// at `(o, i)` of the source, up to `a`.
pub open spec fn scan_value(src: Seq<i32>, op: B, c0: i32, axis_len: int, inner: int, o: int, a: int, i: int) -> i32 {
    scan_at(op, c0, column(src, o, i, axis_len, inner), a)->Some_0
}

/// `dst` holds the scan values of `src` at every element whose position
/// `(o, i)` comes before `(ko, ki)` in the order of the loops, and `orig`
/// elsewhere.
pub open spec fn scan_done(
    dst: Seq<i32>,
    orig: Seq<i32>,
    src: Seq<i32>,
    op: B,
    c0: i32,
    outer: int,
    axis_len: int,
    inner: int,
    ko: int,
    ki: int,
) -> bool {
    &&& dst.len() == orig.len()
    &&& forall|q: int|
        0 <= q < dst.len() ==> #[trigger] dst[q] == {
            let (o, a, i) = coords3(q, axis_len, inner);
            if q < outer * (axis_len * inner) && (o < ko || (o == ko && i < ki)) {
                scan_value(src, op, c0, axis_len, inner, o, a, i)
            } else {
                orig[q]
            }
        }
}

/// No running value of any position overflows.
pub open spec fn scan_fits(src: Seq<i32>, op: B, c0: i32, outer: int, axis_len: int, inner: int) -> bool {
    forall|o: int, i: int|
        0 <= o < outer && 0 <= i < inner ==> #[trigger] scan_at(
            op,
            c0,
            column(src, o, i, axis_len, inner),
            axis_len - 1,
        ) is Some
}

/// The buffers a whole scan kernel runs on.
pub open spec fn scan_buffers(mem: Map<usize, Seq<i32>>, outer: usize, axis_len: usize, inner: usize) -> bool {
    &&& outer <= i32::MAX && axis_len <= i32::MAX && inner <= i32::MAX
    &&& outer * (axis_len * inner) <= i32::MAX
    &&& mem.contains_key(0usize) && mem[0usize].len() >= outer * (axis_len * inner)
    &&& mem.contains_key(1usize) && mem[1usize].len() >= outer * (axis_len * inner)
}

#[verifier::spinoff_prover]
#[verifier::rlimit(40)]
proof fn lemma_scan_inner_loop(
    outer: usize,
    axis_len: usize,
    inner: usize,
    c0: i32,
    op: B,
    mem: Map<usize, Seq<i32>>,
    o: int,
    vi: Map<int, i32>,
    mi: Map<usize, Seq<i32>>,
    i: int,
)
    requires
        scan_buffers(mem, outer, axis_len, inner),
        scan_fits(mem[0usize], op, c0, outer as int, axis_len as int, inner as int),
        0 <= o < outer,
        0 <= i <= inner,
        vi.contains_key(2) && vi[2] == o,
        mi.dom() == mem.dom(),
        mi[0usize] == mem[0usize],
        scan_done(mi[1usize], mem[1usize], mem[0usize], op, c0, outer as int, axis_len as int, inner as int, o, i),
    ensures
        ({
            let s = scan_kernel(outer, axis_len, inner, DType::I32, Const::I32(c0), op);
            &&& run_loop(s, 3, 15, i, inner as int, vi, mi) matches Some((vb, mb))
            &&& vb.contains_key(2) && vb[2] == o
            &&& mb.dom() == mem.dom()
            &&& mb[0usize] == mem[0usize]
            &&& scan_done(
                mb[1usize],
                mem[1usize],
                mem[0usize],
                op,
                c0,
                outer as int,
                axis_len as int,
                inner as int,
                o,
                inner as int,
            )
        }),
    decreases inner - i,
{
    let s = scan_kernel(outer, axis_len, inner, DType::I32, Const::I32(c0), op);
    let n = axis_len as int;
    let src = mem[0usize];
    if i < inner {
        let vals = vi.insert(3, i as i32);
        assert(scan_at(op, c0, column(src, o, i, n, inner as int), n - 1) is Some);
        law_scan_values(outer, axis_len, inner, c0, op, vals, mi);
        let (v2, m2) = run(s, 4, 15, vals, mi)->Some_0;
        assert(run_loop(s, 3, 15, i, inner as int, vi, mi) == run_loop(s, 3, 15, i + 1, inner as int, v2, m2));
        let total = outer * (axis_len * inner);
        assert forall|q: int| 0 <= q < m2[1usize].len() implies #[trigger] m2[1usize][q] == {
            let (qo, qa, qi) = coords3(q, n, inner as int);
            if q < total && (qo < o || (qo == o && qi < i + 1)) {
                scan_value(src, op, c0, n, inner as int, qo, qa, qi)
            } else {
                mem[1usize][q]
            }
        } by {
            let (qo, qa, qi) = coords3(q, n, inner as int);
            if q < total && qo == o && qi == i {
                lemma_offset3_of_coords(q, outer as int, n, inner as int);
                assert(m2[1usize][offset3(o, qa, i, n, inner as int)] == scan_value(
                    src,
                    op,
                    c0,
                    n,
                    inner as int,
                    o,
                    qa,
                    i,
                ));
            } else {
                assert forall|a: int| 0 <= a < n implies q != #[trigger] offset3(o, a, i, n, inner as int) by {
                    lemma_coords3(o, a, i, n, inner as int);
                    lemma_offset3_bound(o, a, i, outer as int, n, inner as int);
                }
                assert(m2[1usize][q] == mi[1usize][q]);
                assert(mi[1usize][q] == {
                    if q < total && (qo < o || (qo == o && qi < i)) {
                        scan_value(src, op, c0, n, inner as int, qo, qa, qi)
                    } else {
                        mem[1usize][q]
                    }
                });
            }
        }
        lemma_scan_inner_loop(outer, axis_len, inner, c0, op, mem, o, v2, m2, i + 1);
    }
}

#[verifier::spinoff_prover]
#[verifier::rlimit(40)]
proof fn lemma_scan_outer_loop(
    outer: usize,
    axis_len: usize,
    inner: usize,
    c0: i32,
    op: B,
    mem: Map<usize, Seq<i32>>,
    vo: Map<int, i32>,
    mo: Map<usize, Seq<i32>>,
    o: int,
)
    requires
        scan_buffers(mem, outer, axis_len, inner),
        scan_fits(mem[0usize], op, c0, outer as int, axis_len as int, inner as int),
        0 <= o <= outer,
        mo.dom() == mem.dom(),
        mo[0usize] == mem[0usize],
        scan_done(mo[1usize], mem[1usize], mem[0usize], op, c0, outer as int, axis_len as int, inner as int, o, 0),
    ensures
        ({
            let s = scan_kernel(outer, axis_len, inner, DType::I32, Const::I32(c0), op);
            &&& run_loop(s, 2, 16, o, outer as int, vo, mo) matches Some((vb, mb))
            &&& mb.dom() == mem.dom()
            &&& mb[0usize] == mem[0usize]
            &&& scan_done(
                mb[1usize],
                mem[1usize],
                mem[0usize],
                op,
                c0,
                outer as int,
                axis_len as int,
                inner as int,
                outer as int,
                0,
            )
        }),
    decreases outer - o,
{
    let s = scan_kernel(outer, axis_len, inner, DType::I32, Const::I32(c0), op);
    let n = axis_len as int;
    if o < outer {
        let v = vo.insert(2, o as i32);
        lemma_scan_inner_loop(outer, axis_len, inner, c0, op, mem, o, v, mo, 0);
        let (v2, m2) = run_loop(s, 3, 15, 0, inner as int, v, mo)->Some_0;
        assert(run(s, 16, 16, v2, m2) == Some((v2, m2)));
        assert(run(s, 3, 16, v, mo) == Some((v2, m2)));
        assert(run_loop(s, 2, 16, o, outer as int, vo, mo) == run_loop(s, 2, 16, o + 1, outer as int, v2, m2));
        let total = outer * (axis_len * inner);
        assert forall|q: int| 0 <= q < m2[1usize].len() implies #[trigger] m2[1usize][q] == {
            let (qo, qa, qi) = coords3(q, n, inner as int);
            if q < total && (qo < o + 1 || (qo == o + 1 && qi < 0)) {
                scan_value(mem[0usize], op, c0, n, inner as int, qo, qa, qi)
            } else {
                mem[1usize][q]
            }
        } by {
            if q < total {
                lemma_offset3_of_coords(q, outer as int, n, inner as int);
            }
        }
        lemma_scan_outer_loop(outer, axis_len, inner, c0, op, mem, v2, m2, o + 1);
    }
}

/// Running a whole scan kernel over `i32` values stores into the result
/// (buffer `1`) at the offset of every element `(o, a, i)` the running value
/// `init op x[0] op ... op x[a]` of the source's elements `x` along the axis
/// at `(o, i)` (buffer `0`), leaves the source and the rest of the result as
/// they were; where the sizes fit in `i32` and no running value overflows.
/// For `cumsum` this is the inclusive prefix sum from `0` (`+`), for
/// `cumprod` the inclusive prefix product from `1` (`*`).
pub proof fn law_scan_kernel_values(
    outer: usize,
    axis_len: usize,
    inner: usize,
    c0: i32,
    op: B,
    vals: Map<int, i32>,
    mem: Map<usize, Seq<i32>>,
)
    requires
        scan_buffers(mem, outer, axis_len, inner),
        scan_fits(mem[0usize], op, c0, outer as int, axis_len as int, inner as int),
    ensures
        ({
            let s = scan_kernel(outer, axis_len, inner, DType::I32, Const::I32(c0), op);
            let src = mem[0usize];
            &&& run(s, 0, s.len() as int, vals, mem) matches Some((v2, m2))
            &&& m2.dom() == mem.dom()
            &&& m2[0usize] == src
            &&& m2[1usize].len() == mem[1usize].len()
            &&& forall|o: int, a: int, i: int|
                0 <= o < outer && 0 <= a < axis_len && 0 <= i < inner ==> m2[1usize][#[trigger] offset3(
                    o,
                    a,
                    i,
                    axis_len as int,
                    inner as int,
                )] == scan_at(op, c0, column(src, o, i, axis_len as int, inner as int), a)->Some_0
            &&& forall|q: int|
                outer * (axis_len * inner) <= q < m2[1usize].len() ==> m2[1usize][q] == mem[1usize][q]
        }),
{
    let s = scan_kernel(outer, axis_len, inner, DType::I32, Const::I32(c0), op);
    let n = axis_len as int;
    let src = mem[0usize];
    assert(s.len() == 17);
    assert(step(s, 0, vals, mem) == Some((vals, mem)));
    assert(step(s, 1, vals, mem) == Some((vals, mem)));
    assert forall|q: int| 0 <= q < mem[1usize].len() implies #[trigger] mem[1usize][q] == {
        let (qo, qa, qi) = coords3(q, n, inner as int);
        if q < outer * (axis_len * inner) && (qo < 0 || (qo == 0 && qi < 0)) {
            scan_value(src, op, c0, n, inner as int, qo, qa, qi)
        } else {
            mem[1usize][q]
        }
    } by {
        if q < outer * (axis_len * inner) {
            lemma_offset3_of_coords(q, outer as int, n, inner as int);
        }
    }
    lemma_scan_outer_loop(outer, axis_len, inner, c0, op, mem, vals, mem, 0);
    let (v2, m2) = run_loop(s, 2, 16, 0, outer as int, vals, mem)->Some_0;
    assert(run(s, 17, 17, v2, m2) == Some((v2, m2)));
    assert(run(s, 2, 17, vals, mem) == Some((v2, m2)));
    assert(run(s, 1, 17, vals, mem) == Some((v2, m2)));
    assert(run(s, 0, 17, vals, mem) == Some((v2, m2)));
    assert forall|o: int, a: int, i: int|
        0 <= o < outer && 0 <= a < axis_len && 0 <= i < inner implies m2[1usize][#[trigger] offset3(
            o,
            a,
            i,
            n,
            inner as int,
        )] == scan_at(op, c0, column(src, o, i, n, inner as int), a)->Some_0 by {
        lemma_coords3(o, a, i, n, inner as int);
        lemma_offset3_bound(o, a, i, outer as int, n, inner as int);
        assert(m2[1usize][offset3(o, a, i, n, inner as int)] == scan_value(src, op, c0, n, inner as int, o, a, i));
    }
}

proof fn lemma_coords2(o: int, i: int, inner: int)
    requires
        0 <= o,
        0 <= i < inner,
    ensures
        (o * inner + i) / inner == o,
        (o * inner + i) % inner == i,
{
    vstd::arithmetic::div_mod::lemma_fundamental_div_mod_converse(o * inner + i, inner, o, i);
}

proof fn lemma_of_coords2(q: int, outer: int, inner: int)
    requires
        0 <= inner,
        0 <= q < outer * inner,
    ensures
        inner > 0,
        0 <= q / inner < outer,
        0 <= q % inner < inner,
        q == (q / inner) * inner + q % inner,
{
    assert(inner > 0) by (nonlinear_arith)
        requires
            0 <= q < outer * inner,
            0 <= inner,
    ;
    vstd::arithmetic::div_mod::lemma_fundamental_div_mod(q, inner);
    vstd::arithmetic::div_mod::lemma_mod_pos_bound(q, inner);
    vstd::arithmetic::div_mod::lemma_div_pos_is_pos(q, inner);
    assert(q / inner < outer) by (nonlinear_arith)
        requires
            q == inner * (q / inner) + q % inner,
            0 <= q % inner,
            q < outer * inner,
            inner > 0,
    ;
    assert((q / inner) * inner == inner * (q / inner)) by (nonlinear_arith);
}

/// The index the arg-max kernel leaves at position `(o, i)` of the result.
pub open spec fn argmax_value(src: Seq<i32>, axis_len: int, inner: int, o: int, i: int) -> i32 {
    best(column(src, o, i, axis_len, inner), axis_len).1 as i32
}

/// `dst` holds the arg-max indices of `src` at every position `(o, i)` that
/// comes before `(ko, ki)` in the order of the loops, and `orig` elsewhere.
pub open spec fn argmax_done(
    dst: Seq<i32>,
    orig: Seq<i32>,
    src: Seq<i32>,
    outer: int,
    axis_len: int,
    inner: int,
    ko: int,
    ki: int,
) -> bool {
    &&& dst.len() == orig.len()
    &&& forall|q: int|
        0 <= q < dst.len() ==> #[trigger] dst[q] == if q < outer * inner && (q / inner < ko || (q
            / inner == ko && q % inner < ki)) {
            argmax_value(src, axis_len, inner, q / inner, q % inner)
        } else {
            orig[q]
        }
}

/// The buffers a whole arg-max kernel runs on.
pub open spec fn argmax_buffers(mem: Map<usize, Seq<i32>>, outer: usize, axis_len: usize, inner: usize) -> bool {
    &&& outer <= i32::MAX && axis_len <= i32::MAX && inner <= i32::MAX
    &&& outer * (axis_len * inner) <= i32::MAX
    &&& outer * inner <= i32::MAX
    &&& mem.contains_key(0usize) && mem[0usize].len() >= outer * (axis_len * inner)
    &&& mem.contains_key(1usize) && mem[1usize].len() >= outer * inner
}

#[verifier::spinoff_prover]
#[verifier::rlimit(40)]
proof fn lemma_argmax_inner_loop(
    outer: usize,
    axis_len: usize,
    inner: usize,
    mem: Map<usize, Seq<i32>>,
    o: int,
    vi: Map<int, i32>,
    mi: Map<usize, Seq<i32>>,
    i: int,
)
    requires
        argmax_buffers(mem, outer, axis_len, inner),
        0 <= o < outer,
        0 <= i <= inner,
        vi.contains_key(2) && vi[2] == o,
        mi.dom() == mem.dom(),
        mi[0usize] == mem[0usize],
        argmax_done(mi[1usize], mem[1usize], mem[0usize], outer as int, axis_len as int, inner as int, o, i),
    ensures
        ({
            let s = argmax_kernel(outer, axis_len, inner, DType::I32);
            &&& run_loop(s, 3, 21, i, inner as int, vi, mi) matches Some((vb, mb))
            &&& vb.contains_key(2) && vb[2] == o
            &&& mb.dom() == mem.dom()
            &&& mb[0usize] == mem[0usize]
            &&& argmax_done(
                mb[1usize],
                mem[1usize],
                mem[0usize],
                outer as int,
                axis_len as int,
                inner as int,
                o,
                inner as int,
            )
        }),
    decreases inner - i,
{
    let s = argmax_kernel(outer, axis_len, inner, DType::I32);
    let n = axis_len as int;
    let src = mem[0usize];
    if i < inner {
        let vals = vi.insert(3, i as i32);
        law_argmax_values(outer, axis_len, inner, vals, mi);
        let (v2, m2) = run(s, 4, 21, vals, mi)->Some_0;
        assert(run_loop(s, 3, 21, i, inner as int, vi, mi) == run_loop(s, 3, 21, i + 1, inner as int, v2, m2));
        lemma_coords2(o, i, inner as int);
        assert(m2.dom() =~= mem.dom());
        assert(o * inner + i < outer * inner) by (nonlinear_arith)
            requires
                0 <= o < outer,
                0 <= i < inner,
        ;
        assert forall|q: int| 0 <= q < m2[1usize].len() implies #[trigger] m2[1usize][q] == if q < outer
            * inner && (q / (inner as int) < o || (q / (inner as int) == o && q % (inner as int) < i + 1)) {
            argmax_value(src, n, inner as int, q / (inner as int), q % (inner as int))
        } else {
            mem[1usize][q]
        } by {
            if q < outer * inner {
                lemma_of_coords2(q, outer as int, inner as int);
            }
            if q != o * inner + i {
                assert(m2[1usize][q] == mi[1usize][q]);
            }
        }
        lemma_argmax_inner_loop(outer, axis_len, inner, mem, o, v2, m2, i + 1);
    }
}

#[verifier::spinoff_prover]
#[verifier::rlimit(40)]
proof fn lemma_argmax_outer_loop(
    outer: usize,
    axis_len: usize,
    inner: usize,
    mem: Map<usize, Seq<i32>>,
    vo: Map<int, i32>,
    mo: Map<usize, Seq<i32>>,
    o: int,
)
    requires
        argmax_buffers(mem, outer, axis_len, inner),
        0 <= o <= outer,
        mo.dom() == mem.dom(),
        mo[0usize] == mem[0usize],
        argmax_done(mo[1usize], mem[1usize], mem[0usize], outer as int, axis_len as int, inner as int, o, 0),
    ensures
        ({
            let s = argmax_kernel(outer, axis_len, inner, DType::I32);
            &&& run_loop(s, 2, 22, o, outer as int, vo, mo) matches Some((vb, mb))
            &&& mb.dom() == mem.dom()
            &&& mb[0usize] == mem[0usize]
            &&& argmax_done(
                mb[1usize],
                mem[1usize],
                mem[0usize],
                outer as int,
                axis_len as int,
                inner as int,
                outer as int,
                0,
            )
        }),
    decreases outer - o,
{
    let s = argmax_kernel(outer, axis_len, inner, DType::I32);
    let n = axis_len as int;
    if o < outer {
        let v = vo.insert(2, o as i32);
        lemma_argmax_inner_loop(outer, axis_len, inner, mem, o, v, mo, 0);
        let (v2, m2) = run_loop(s, 3, 21, 0, inner as int, v, mo)->Some_0;
        assert(run(s, 22, 22, v2, m2) == Some((v2, m2)));
        assert(run(s, 3, 22, v, mo) == Some((v2, m2)));
        assert(run_loop(s, 2, 22, o, outer as int, vo, mo) == run_loop(s, 2, 22, o + 1, outer as int, v2, m2));
        assert forall|q: int| 0 <= q < m2[1usize].len() implies #[trigger] m2[1usize][q] == if q < outer
            * inner && (q / (inner as int) < o + 1 || (q / (inner as int) == o + 1 && q % (inner as int) < 0)) {
            argmax_value(mem[0usize], n, inner as int, q / (inner as int), q % (inner as int))
        } else {
            mem[1usize][q]
        } by {
            if q < outer * inner {
                lemma_of_coords2(q, outer as int, inner as int);
            }
        }
        lemma_argmax_outer_loop(outer, axis_len, inner, mem, v2, m2, o + 1);
    }
}

/// Running a whole arg-max kernel over `i32` values stores into the result
/// (buffer `1`), at the offset `o * inner + i` of every position `(o, i)`,
/// the index `best` gives for the source's elements along the axis at
/// `(o, i)` (buffer `0`), and leaves the source and the rest of the result
/// as they were; where the sizes fit in `i32`. Along a non-empty axis that
/// index is the first position of the largest element: ties go to the first.
pub proof fn law_argmax_kernel_values(
    outer: usize,
    axis_len: usize,
    inner: usize,
    vals: Map<int, i32>,
    mem: Map<usize, Seq<i32>>,
)
    requires
        argmax_buffers(mem, outer, axis_len, inner),
    ensures
        ({
            let s = argmax_kernel(outer, axis_len, inner, DType::I32);
            let src = mem[0usize];
            &&& run(s, 0, s.len() as int, vals, mem) matches Some((v2, m2))
            &&& m2.dom() == mem.dom()
            &&& m2[0usize] == src
            &&& m2[1usize].len() == mem[1usize].len()
            &&& forall|o: int, i: int|
                #![trigger column(src, o, i, axis_len as int, inner as int)]
                0 <= o < outer && 0 <= i < inner ==> {
                    let col = column(src, o, i, axis_len as int, inner as int);
                    let k = m2[1usize][o * inner + i] as int;
                    &&& k == best(col, axis_len as int).1
                    &&& axis_len >= 1 ==> {
                        &&& 0 <= k < axis_len
                        &&& forall|j: int| 0 <= j < axis_len ==> col[j] <= col[k]
                        &&& forall|j: int| 0 <= j < k ==> col[j] < col[k]
                    }
                }
            &&& forall|q: int| outer * inner <= q < m2[1usize].len() ==> m2[1usize][q] == mem[1usize][q]
        }),
{
    let s = argmax_kernel(outer, axis_len, inner, DType::I32);
    let n = axis_len as int;
    let src = mem[0usize];
    assert(s.len() == 23);
    assert(step(s, 0, vals, mem) == Some((vals, mem)));
    assert(step(s, 1, vals, mem) == Some((vals, mem)));
    assert forall|q: int| 0 <= q < mem[1usize].len() implies #[trigger] mem[1usize][q] == if q < outer
        * inner && (q / (inner as int) < 0 || (q / (inner as int) == 0 && q % (inner as int) < 0)) {
        argmax_value(src, n, inner as int, q / (inner as int), q % (inner as int))
    } else {
        mem[1usize][q]
    } by {
        if q < outer * inner {
            lemma_of_coords2(q, outer as int, inner as int);
        }
    }
    lemma_argmax_outer_loop(outer, axis_len, inner, mem, vals, mem, 0);
    let (v2, m2) = run_loop(s, 2, 22, 0, outer as int, vals, mem)->Some_0;
    assert(run(s, 23, 23, v2, m2) == Some((v2, m2)));
    assert(run(s, 2, 23, vals, mem) == Some((v2, m2)));
    assert(run(s, 1, 23, vals, mem) == Some((v2, m2)));
    assert(run(s, 0, 23, vals, mem) == Some((v2, m2)));
    assert forall|o: int, i: int|
        #![trigger column(src, o, i, n, inner as int)]
        0 <= o < outer && 0 <= i < inner implies {
        let col = column(src, o, i, n, inner as int);
        let k = m2[1usize][o * inner + i] as int;
        &&& k == best(col, n).1
        &&& axis_len >= 1 ==> {
            &&& 0 <= k < axis_len
            &&& forall|j: int| 0 <= j < axis_len ==> col[j] <= col[k]
            &&& forall|j: int| 0 <= j < k ==> col[j] < col[k]
        }
    } by {
        let col = column(src, o, i, n, inner as int);
        lemma_coords2(o, i, inner as int);
        assert(o * inner + i < outer * inner) by (nonlinear_arith)
            requires
                0 <= o < outer,
                0 <= i < inner,
        ;
        assert(m2[1usize][o * inner + i] == argmax_value(src, n, inner as int, o, i));
        assert(n <= outer * (n * inner)) by (nonlinear_arith)
            requires
                0 <= o < outer,
                0 <= i < inner,
                0 <= n,
        ;
        if n >= 1 {
            lemma_best_is_first_max(col, n);
        } else {
            assert(best(col, 0) == (i32::MIN, 0int));
        }
    }
}

/// Operand `a` of instruction `k` is an `i32` constant, or a variable below
/// `k` that `vals0` holds or that is computed from `pc0` on.
pub open spec fn arith_operand(a: A, k: int, vals0: Map<int, i32>, pc0: int) -> bool {
    match a {
        A::Const(Const::I32(_)) => true,
        A::Var(v) => (v.0 as int) < k && ((v.0 as int) >= pc0 || vals0.contains_key(v.0 as int)),
        _ => false,
    }
}

/// Instruction `k` is `i32` arithmetic on such operands.
pub open spec fn arith_instr(s: Seq<Instr>, k: int, vals0: Map<int, i32>, pc0: int) -> bool {
    match s[k] {
        Instr::Const(Const::I32(_)) => true,
        Instr::Binary { lhs, rhs, dtype: DType::I32, .. } => arith_operand(lhs, k, vals0, pc0)
            && arith_operand(rhs, k, vals0, pc0),
        _ => false,
    }
}

/// Every variable below `k` that `vals` holds has the value `int_value`
/// gives it under `env`.
pub open spec fn agrees(s: Seq<Instr>, env: spec_fn(int) -> i32, vals: Map<int, i32>, k: int) -> bool {
    forall|j: int| 0 <= j < k && vals.contains_key(j) ==> #[trigger] int_value(s, env, j) == Some(vals[j])
}

/// Running a stretch of `i32` arithmetic computes, for each of its
/// instructions, the value `int_value` gives it, and touches no buffer.
#[verifier::spinoff_prover]
#[verifier::rlimit(40)]
proof fn lemma_run_arith(
    s: Seq<Instr>,
    env: spec_fn(int) -> i32,
    vals0: Map<int, i32>,
    pc0: int,
    pc: int,
    stop: int,
    vals: Map<int, i32>,
    mem: Map<usize, Seq<i32>>,
)
    requires
        0 <= pc0 <= pc <= stop <= s.len(),
        forall|k: int| pc0 <= k < stop ==> #[trigger] arith_instr(s, k, vals0, pc0),
        forall|k: int| pc0 <= k < stop ==> #[trigger] int_value(s, env, k) is Some,
        agrees(s, env, vals, pc),
        forall|j: int| j < pc0 && vals0.contains_key(j) ==> #[trigger] vals.contains_key(j),
        forall|j: int| pc0 <= j < pc ==> #[trigger] vals.contains_key(j),
    ensures
        run(s, pc, stop, vals, mem) matches Some((v2, m2)) && {
            &&& m2 == mem
            &&& agrees(s, env, v2, stop)
            &&& forall|j: int| pc0 <= j < stop ==> #[trigger] v2.contains_key(j)
            &&& forall|j: int| j < pc && vals.contains_key(j) ==> #[trigger] v2.contains_key(j) && v2[j] == vals[j]
        },
    decreases stop - pc,
{
    if pc < stop {
        assert(arith_instr(s, pc, vals0, pc0));
        assert(int_value(s, env, pc) is Some);
        let z = int_value(s, env, pc)->Some_0;
        let v1 = vals.insert(pc, z);
        match s[pc] {
            Instr::Binary { op, lhs, rhs, dtype } => {
                if let A::Var(v) = lhs {
                    assert(vals.contains_key(v.0 as int));
                    assert(int_value(s, env, v.0 as int) == Some(vals[v.0 as int]));
                }
                if let A::Var(v) = rhs {
                    assert(vals.contains_key(v.0 as int));
                    assert(int_value(s, env, v.0 as int) == Some(vals[v.0 as int]));
                }
            },
            _ => {},
        }
        assert(step(s, pc, vals, mem) == Some((v1, mem)));
        assert(run(s, pc, stop, vals, mem) == run(s, pc + 1, stop, v1, mem));
        assert(agrees(s, env, v1, pc + 1));
        assert forall|j: int| j < pc && vals.contains_key(j) implies #[trigger] v1.contains_key(j) && v1[j]
            == vals[j] by {}
        lemma_run_arith(s, env, vals0, pc0, pc + 1, stop, v1, mem);
        let (v2, m2) = run(s, pc + 1, stop, v1, mem)->Some_0;
        assert forall|j: int| j < pc && vals.contains_key(j) implies #[trigger] v2.contains_key(j) && v2[j]
            == vals[j] by {
            assert(v1.contains_key(j) && v1[j] == vals[j]);
        }
    } else {
        assert(run(s, pc, stop, vals, mem) == Some((vals, mem)));
    }
}

/// Running a stretch without loops and then what follows is running the
/// whole.
proof fn lemma_run_concat(s: Seq<Instr>, a: int, b: int, c: int, v: Map<int, i32>, m: Map<usize, Seq<i32>>)
    requires
        0 <= a <= b <= c <= s.len(),
        forall|k: int| a <= k < b ==> !(#[trigger] s[k] is Range),
        run(s, a, b, v, m) is Some,
    ensures
        run(s, a, c, v, m) == run(s, b, c, run(s, a, b, v, m)->Some_0.0, run(s, a, b, v, m)->Some_0.1),
    decreases b - a,
{
    if a < b {
        assert(!(s[a] is Range));
        let (v1, m1) = step(s, a, v, m)->Some_0;
        assert(run(s, a, b, v, m) == run(s, a + 1, b, v1, m1));
        assert(run(s, a, c, v, m) == run(s, a + 1, c, v1, m1));
        lemma_run_concat(s, a + 1, b, c, v1, m1);
    }
}

/// The shapes and buffers a gather kernel over `i32` values runs on: the
/// source (buffer `0`), the indices (buffer `1`, each inside the source
/// along `dim`) and the result (buffer `2`).
pub open spec fn gather_setting(
    mem: Map<usize, Seq<i32>>,
    src_dims: Seq<usize>,
    idx_dims: Seq<usize>,
    dim: int,
) -> bool {
    &&& idx_dims.len() == src_dims.len()
    &&& 0 <= dim < src_dims.len()
    &&& shape_fits(src_dims)
    &&& shape_fits(idx_dims)
    &&& prod(src_dims) <= i32::MAX
    &&& prod(idx_dims) <= i32::MAX
    &&& forall|j: int| 0 <= j < src_dims.len() && j != dim ==> idx_dims[j] <= src_dims[j]
    &&& gather_kernel(src_dims, idx_dims, dim, DType::I32).len() <= usize::MAX
    &&& mem.contains_key(0usize) && mem[0usize].len() >= prod(src_dims)
    &&& mem.contains_key(1usize) && mem[1usize].len() >= prod(idx_dims)
    &&& mem.contains_key(2usize) && mem[2usize].len() >= prod(idx_dims)
    &&& forall|r: int| 0 <= r < prod(idx_dims) ==> 0 <= #[trigger] mem[1usize][r] < src_dims[dim]
}

/// The variables of a state, as the values `int_value` takes for loop
/// indices and loads.
pub open spec fn env_of(vals: Map<int, i32>) -> spec_fn(int) -> i32 {
    |j: int| if vals.contains_key(j) { vals[j] } else { 0i32 }
}

#[verifier::spinoff_prover]
#[verifier::rlimit(60)]
proof fn lemma_gather_body(
    src_dims: Seq<usize>,
    idx_dims: Seq<usize>,
    dim: int,
    mem: Map<usize, Seq<i32>>,
    vals: Map<int, i32>,
    mc: Map<usize, Seq<i32>>,
    r: int,
)
    requires
        gather_setting(mem, src_dims, idx_dims, dim),
        0 <= r < prod(idx_dims),
        mc.dom() == mem.dom(),
        mc[0usize] == mem[0usize],
        mc[1usize] == mem[1usize],
        mc[2usize].len() == mem[2usize].len(),
    ensures
        ({
            let s = gather_kernel(src_dims, idx_dims, dim, DType::I32);
            let n = src_dims.len() as int;
            let m = 6 + offsets_len(n);
            let off = indexed_offset(idx_dims, src_dims, dim, r, mem[1usize][r] as int);
            &&& 0 <= off < prod(src_dims)
            &&& run(s, 4, m + 2, vals.insert(3, r as i32), mc) matches Some((v2, m2))
            &&& m2 == mc.insert(2usize, mc[2usize].update(r, mem[0usize][off]))
        }),
{
    let s = gather_kernel(src_dims, idx_dims, dim, DType::I32);
    let n = src_dims.len() as int;
    let l = offsets_len(n);
    let m = 6 + l;
    let x = mem[1usize][r];
    let v3 = vals.insert(3, r as i32);
    let v4 = v3.insert(4, x);
    let v5 = v4.insert(5, 0i32);
    let env = env_of(v5);
    assert(env(3) == r as i32);
    assert(env(4) == x);
    law_gather_offset(src_dims, idx_dims, dim, DType::I32, env);
    let off = indexed_offset(idx_dims, src_dims, dim, r, x as int);
    assert(offsets_setting(s, env, 6, 3, 5, 4, dim, idx_dims, src_dims, r, x as int));
    assert(global_index(s, crate::lang::VarId(0)) == Some(0usize));
    assert(global_index(s, crate::lang::VarId(1)) == Some(1usize));
    assert(global_index(s, crate::lang::VarId(2)) == Some(2usize));
    assert(step(s, 4, v3, mc) == Some((v4, mc)));
    assert(step(s, 5, v4, mc) == Some((v5, mc)));
    assert forall|k: int| 6 <= k < m implies #[trigger] arith_instr(s, k, v5, 6) by {
        lemma_offsets_shape(s, env, 6, 3, 5, 4, dim, idx_dims, src_dims, r, x as int, k - 6);
        assert(offset_instr(s[k], k, 6, 3, 5, 4));
    }
    assert forall|k: int| 6 <= k < m implies #[trigger] int_value(s, env, k) is Some by {
        lemma_offsets_defined(s, env, 6, 3, 5, 4, dim, idx_dims, src_dims, r, x as int, k - 6);
        assert(6 + (k - 6) == k);
    }
    assert forall|j: int| 0 <= j < 6 && v5.contains_key(j) implies #[trigger] int_value(s, env, j) == Some(
        v5[j],
    ) by {
        assert(s[j] == s.subrange(0, 6)[j]);
    }
    lemma_run_arith(s, env, v5, 6, 6, m, v5, mc);
    let (v6, m6) = run(s, 6, m, v5, mc)->Some_0;
    let fa = final_acc(6, 5, n);
    assert(6 <= fa < m);
    assert(v6.contains_key(fa));
    assert(int_value(s, env, fa) == Some(v6[fa]));
    assert(v6[fa] == off as i32);
    lemma_iters_len(n, 6, 3, 5, 4, n, dim, strides(idx_dims), strides(src_dims));
    assert(s.len() == m + 3);
    assert(s[m] == load(0, fa, DType::I32));
    assert(s[m + 1] == store(2, 3, m, DType::I32));
    let y = mem[0usize][off];
    let v7 = v6.insert(m, y);
    let m8 = mc.insert(2usize, mc[2usize].update(r, y));
    assert(v6.contains_key(3) && v6[3] == r as i32);
    assert(step(s, m, v6, mc) == Some((v7, mc)));
    assert(step(s, m + 1, v7, mc) == Some((v7, m8)));
    assert(run(s, m + 2, m + 2, v7, m8) == Some((v7, m8)));
    assert(run(s, m + 1, m + 2, v7, mc) == Some((v7, m8)));
    assert(run(s, m, m + 2, v6, mc) == Some((v7, m8)));
    assert forall|k: int| 6 <= k < m implies !(#[trigger] s[k] is Range) by {
        assert(arith_instr(s, k, v5, 6));
    }
    lemma_run_concat(s, 6, m, m + 2, v5, mc);
    assert(run(s, 5, m + 2, v4, mc) == run(s, 6, m + 2, v5, mc));
    assert(run(s, 4, m + 2, v3, mc) == run(s, 5, m + 2, v4, mc));
}

/// `dst` holds `f(q)` at each `q < k` and `orig` elsewhere.
pub open spec fn prefix_written(dst: Seq<i32>, orig: Seq<i32>, k: int, f: spec_fn(int) -> i32) -> bool {
    &&& dst.len() == orig.len()
    &&& forall|q: int| 0 <= q < dst.len() ==> #[trigger] dst[q] == if q < k { f(q) } else { orig[q] }
}

/// What a gather stores at position `r`: the source's element at the offset
/// of the coordinates of `r` with the one along `dim` replaced by the index
/// found at `r`.
pub open spec fn gathered(mem: Map<usize, Seq<i32>>, src_dims: Seq<usize>, idx_dims: Seq<usize>, dim: int) -> spec_fn(
    int,
) -> i32 {
    |r: int| mem[0usize][indexed_offset(idx_dims, src_dims, dim, r, mem[1usize][r] as int)]
}

proof fn lemma_gather_loop(
    src_dims: Seq<usize>,
    idx_dims: Seq<usize>,
    dim: int,
    mem: Map<usize, Seq<i32>>,
    vals: Map<int, i32>,
    mc: Map<usize, Seq<i32>>,
    r: int,
)
    requires
        gather_setting(mem, src_dims, idx_dims, dim),
        0 <= r <= prod(idx_dims),
        mc.dom() == mem.dom(),
        mc[0usize] == mem[0usize],
        mc[1usize] == mem[1usize],
        prefix_written(mc[2usize], mem[2usize], r, gathered(mem, src_dims, idx_dims, dim)),
    ensures
        ({
            let s = gather_kernel(src_dims, idx_dims, dim, DType::I32);
            let m = 6 + offsets_len(src_dims.len() as int);
            &&& run_loop(s, 3, m + 2, r, prod(idx_dims) as int, vals, mc) matches Some((vb, mb))
            &&& mb.dom() == mem.dom()
            &&& mb[0usize] == mem[0usize]
            &&& mb[1usize] == mem[1usize]
            &&& prefix_written(mb[2usize], mem[2usize], prod(idx_dims) as int, gathered(mem, src_dims, idx_dims, dim))
        }),
    decreases prod(idx_dims) - r,
{
    let s = gather_kernel(src_dims, idx_dims, dim, DType::I32);
    let m = 6 + offsets_len(src_dims.len() as int);
    if r < prod(idx_dims) {
        lemma_gather_body(src_dims, idx_dims, dim, mem, vals, mc, r);
        let (v2, m2) = run(s, 4, m + 2, vals.insert(3, r as i32), mc)->Some_0;
        assert(run_loop(s, 3, m + 2, r, prod(idx_dims) as int, vals, mc) == run_loop(
            s,
            3,
            m + 2,
            r + 1,
            prod(idx_dims) as int,
            v2,
            m2,
        ));
        assert(m2.dom() =~= mem.dom());
        let f = gathered(mem, src_dims, idx_dims, dim);
        assert forall|q: int| 0 <= q < m2[2usize].len() implies #[trigger] m2[2usize][q] == if q < r + 1 {
            f(q)
        } else {
            mem[2usize][q]
        } by {
            if q != r {
                assert(m2[2usize][q] == mc[2usize][q]);
            }
        }
        lemma_gather_loop(src_dims, idx_dims, dim, mem, v2, m2, r + 1);
    }
}

/// Running a whole gather kernel over `i32` values stores into the result
/// (buffer `2`), at every position `r` of the index tensor, the element of
/// the source (buffer `0`) at the offset of the coordinates of `r` with the
/// one along `dim` replaced by the index found at `r` (buffer `1`), and
/// leaves the source, the indices and the rest of the result as they were;
/// where the indices lie inside the source along `dim`, the index tensor is
/// no longer than the source along the other dimensions, and the sizes fit
/// in `i32`.
pub proof fn law_gather_kernel_values(
    src_dims: Seq<usize>,
    idx_dims: Seq<usize>,
    dim: int,
    vals: Map<int, i32>,
    mem: Map<usize, Seq<i32>>,
)
    requires
        gather_setting(mem, src_dims, idx_dims, dim),
    ensures
        ({
            let s = gather_kernel(src_dims, idx_dims, dim, DType::I32);
            &&& run(s, 0, s.len() as int, vals, mem) matches Some((v2, m2))
            &&& m2.dom() == mem.dom()
            &&& m2[0usize] == mem[0usize]
            &&& m2[1usize] == mem[1usize]
            &&& m2[2usize].len() == mem[2usize].len()
            &&& forall|r: int|
                0 <= r < prod(idx_dims) ==> #[trigger] m2[2usize][r] == mem[0usize][indexed_offset(
                    idx_dims,
                    src_dims,
                    dim,
                    r,
                    mem[1usize][r] as int,
                )]
            &&& forall|q: int| prod(idx_dims) <= q < m2[2usize].len() ==> #[trigger] m2[2usize][q] == mem[2usize][q]
        }),
{
    let s = gather_kernel(src_dims, idx_dims, dim, DType::I32);
    let n = src_dims.len() as int;
    let m = 6 + offsets_len(n);
    lemma_iters_len(n, 6, 3, 5, 4, n, dim, strides(idx_dims), strides(src_dims));
    assert(s.len() == m + 3);
    assert(step(s, 0, vals, mem) == Some((vals, mem)));
    assert(step(s, 1, vals, mem) == Some((vals, mem)));
    assert(step(s, 2, vals, mem) == Some((vals, mem)));
    assert(s[m + 2] is EndRange);
    lemma_gather_loop(src_dims, idx_dims, dim, mem, vals, mem, 0);
    let (v2, m2) = run_loop(s, 3, m + 2, 0, prod(idx_dims) as int, vals, mem)->Some_0;
    assert(run(s, m + 3, m + 3, v2, m2) == Some((v2, m2)));
    assert(run(s, 3, m + 3, vals, mem) == Some((v2, m2)));
    assert(run(s, 2, m + 3, vals, mem) == Some((v2, m2)));
    assert(run(s, 1, m + 3, vals, mem) == Some((v2, m2)));
    assert(run(s, 0, m + 3, vals, mem) == Some((v2, m2)));
    let f = gathered(mem, src_dims, idx_dims, dim);
    assert forall|r: int| 0 <= r < prod(idx_dims) implies #[trigger] m2[2usize][r] == mem[0usize][indexed_offset(
        idx_dims,
        src_dims,
        dim,
        r,
        mem[1usize][r] as int,
    )] by {
        assert(m2[2usize][r] == f(r));
    }
}

/// The shapes and buffers a scatter kernel over `i32` values runs on: the
/// tensor scattered into (buffer `0`), the indices (buffer `1`, each inside
/// it along `dim`), the values (buffer `2`) and the result (buffer `3`).
pub open spec fn scatter_setting(
    mem: Map<usize, Seq<i32>>,
    dst_dims: Seq<usize>,
    idx_dims: Seq<usize>,
    dim: int,
) -> bool {
    &&& idx_dims.len() == dst_dims.len()
    &&& 0 <= dim < dst_dims.len()
    &&& shape_fits(dst_dims)
    &&& shape_fits(idx_dims)
    &&& prod(dst_dims) <= i32::MAX
    &&& prod(idx_dims) <= i32::MAX
    &&& forall|j: int| 0 <= j < dst_dims.len() && j != dim ==> idx_dims[j] <= dst_dims[j]
    &&& scatter_kernel(dst_dims, idx_dims, dim, DType::I32).len() <= usize::MAX
    &&& mem.contains_key(0usize) && mem[0usize].len() >= prod(dst_dims)
    &&& mem.contains_key(1usize) && mem[1usize].len() >= prod(idx_dims)
    &&& mem.contains_key(2usize) && mem[2usize].len() >= prod(idx_dims)
    &&& mem.contains_key(3usize) && mem[3usize].len() >= prod(dst_dims)
    &&& forall|r: int| 0 <= r < prod(idx_dims) ==> 0 <= #[trigger] mem[1usize][r] < dst_dims[dim]
}

/// Where the value at position `r` of the index tensor goes: the offset of
/// the coordinates of `r` with the one along `dim` replaced by its index.
pub open spec fn target(mem: Map<usize, Seq<i32>>, dst_dims: Seq<usize>, idx_dims: Seq<usize>, dim: int, r: int) -> int {
    indexed_offset(idx_dims, dst_dims, dim, r, mem[1usize][r] as int)
}

/// `dst` holds the values `vals[r]` at `target(r)` for each `r < k`, and
/// `base` wherever no such target falls.
pub open spec fn scattered(
    dst: Seq<i32>,
    base: Seq<i32>,
    mem: Map<usize, Seq<i32>>,
    dst_dims: Seq<usize>,
    idx_dims: Seq<usize>,
    dim: int,
    k: int,
) -> bool {
    &&& dst.len() == base.len()
    &&& forall|r: int| 0 <= r < k ==> dst[#[trigger] target(mem, dst_dims, idx_dims, dim, r)] == mem[2usize][r]
    &&& forall|q: int|
        0 <= q < dst.len() && (forall|r: int| 0 <= r < k ==> q != #[trigger] target(mem, dst_dims, idx_dims, dim, r))
            ==> dst[q] == base[q]
}

/// No two positions of the index tensor send their values to one place.
pub open spec fn targets_distinct(mem: Map<usize, Seq<i32>>, dst_dims: Seq<usize>, idx_dims: Seq<usize>, dim: int) -> bool {
    forall|r1: int, r2: int|
        0 <= r1 < prod(idx_dims) && 0 <= r2 < prod(idx_dims) && r1 != r2 ==> #[trigger] target(
            mem,
            dst_dims,
            idx_dims,
            dim,
            r1,
        ) != #[trigger] target(mem, dst_dims, idx_dims, dim, r2)
}

proof fn lemma_scatter_copy_loop(
    dst_dims: Seq<usize>,
    idx_dims: Seq<usize>,
    dim: int,
    mem: Map<usize, Seq<i32>>,
    vals: Map<int, i32>,
    mc: Map<usize, Seq<i32>>,
    q: int,
)
    requires
        scatter_setting(mem, dst_dims, idx_dims, dim),
        0 <= q <= prod(dst_dims),
        mc.dom() == mem.dom(),
        mc[0usize] == mem[0usize],
        mc[1usize] == mem[1usize],
        mc[2usize] == mem[2usize],
        prefix_written(mc[3usize], mem[3usize], q, |t: int| mem[0usize][t]),
    ensures
        ({
            let s = scatter_kernel(dst_dims, idx_dims, dim, DType::I32);
            &&& run_loop(s, 4, 7, q, prod(dst_dims) as int, vals, mc) matches Some((vb, mb))
            &&& mb.dom() == mem.dom()
            &&& mb[0usize] == mem[0usize]
            &&& mb[1usize] == mem[1usize]
            &&& mb[2usize] == mem[2usize]
            &&& prefix_written(mb[3usize], mem[3usize], prod(dst_dims) as int, |t: int| mem[0usize][t])
        }),
    decreases prod(dst_dims) - q,
{
    let s = scatter_kernel(dst_dims, idx_dims, dim, DType::I32);
    if q < prod(dst_dims) {
        let v4 = vals.insert(4, q as i32);
        let x = mem[0usize][q];
        let v5 = v4.insert(5, x);
        let m6 = mc.insert(3usize, mc[3usize].update(q, x));
        assert(global_index(s, crate::lang::VarId(0)) == Some(0usize));
        assert(global_index(s, crate::lang::VarId(3)) == Some(3usize));
        assert(step(s, 5, v4, mc) == Some((v5, mc)));
        assert(step(s, 6, v5, mc) == Some((v5, m6)));
        assert(run(s, 7, 7, v5, m6) == Some((v5, m6)));
        assert(run(s, 6, 7, v5, mc) == Some((v5, m6)));
        assert(run(s, 5, 7, v4, mc) == Some((v5, m6)));
        assert(run_loop(s, 4, 7, q, prod(dst_dims) as int, vals, mc) == run_loop(
            s,
            4,
            7,
            q + 1,
            prod(dst_dims) as int,
            v5,
            m6,
        ));
        assert(m6.dom() =~= mem.dom());
        assert forall|t: int| 0 <= t < m6[3usize].len() implies #[trigger] m6[3usize][t] == if t < q + 1 {
            mem[0usize][t]
        } else {
            mem[3usize][t]
        } by {
            if t != q {
                assert(m6[3usize][t] == mc[3usize][t]);
            }
        }
        lemma_scatter_copy_loop(dst_dims, idx_dims, dim, mem, v5, m6, q + 1);
    }
}

#[verifier::spinoff_prover]
#[verifier::rlimit(60)]
proof fn lemma_scatter_body(
    dst_dims: Seq<usize>,
    idx_dims: Seq<usize>,
    dim: int,
    mem: Map<usize, Seq<i32>>,
    vals: Map<int, i32>,
    mc: Map<usize, Seq<i32>>,
    r: int,
)
    requires
        scatter_setting(mem, dst_dims, idx_dims, dim),
        0 <= r < prod(idx_dims),
        mc.dom() == mem.dom(),
        mc[0usize] == mem[0usize],
        mc[1usize] == mem[1usize],
        mc[2usize] == mem[2usize],
        mc[3usize].len() == mem[3usize].len(),
    ensures
        ({
            let s = scatter_kernel(dst_dims, idx_dims, dim, DType::I32);
            let n = dst_dims.len() as int;
            let m = 12 + offsets_len(n);
            let t = target(mem, dst_dims, idx_dims, dim, r);
            &&& 0 <= t < prod(dst_dims)
            &&& run(s, 9, m + 1, vals.insert(8, r as i32), mc) matches Some((v2, m2))
            &&& m2 == mc.insert(3usize, mc[3usize].update(t, mem[2usize][r]))
        }),
{
    let s = scatter_kernel(dst_dims, idx_dims, dim, DType::I32);
    let n = dst_dims.len() as int;
    let l = offsets_len(n);
    let m = 12 + l;
    let x = mem[1usize][r];
    let y = mem[2usize][r];
    let v8 = vals.insert(8, r as i32);
    let v9 = v8.insert(9, x);
    let v10 = v9.insert(10, y);
    let v11 = v10.insert(11, 0i32);
    let env = env_of(v11);
    assert(env(8) == r as i32);
    assert(env(9) == x);
    law_scatter_offset(dst_dims, idx_dims, dim, DType::I32, env);
    let t = target(mem, dst_dims, idx_dims, dim, r);
    assert(offsets_setting(s, env, 12, 8, 11, 9, dim, idx_dims, dst_dims, r, x as int));
    assert(global_index(s, crate::lang::VarId(1)) == Some(1usize));
    assert(global_index(s, crate::lang::VarId(2)) == Some(2usize));
    assert(global_index(s, crate::lang::VarId(3)) == Some(3usize));
    assert(step(s, 9, v8, mc) == Some((v9, mc)));
    assert(step(s, 10, v9, mc) == Some((v10, mc)));
    assert(step(s, 11, v10, mc) == Some((v11, mc)));
    assert forall|k: int| 12 <= k < m implies #[trigger] arith_instr(s, k, v11, 12) by {
        lemma_offsets_shape(s, env, 12, 8, 11, 9, dim, idx_dims, dst_dims, r, x as int, k - 12);
        assert(offset_instr(s[k], k, 12, 8, 11, 9));
    }
    assert forall|k: int| 12 <= k < m implies #[trigger] int_value(s, env, k) is Some by {
        lemma_offsets_defined(s, env, 12, 8, 11, 9, dim, idx_dims, dst_dims, r, x as int, k - 12);
        assert(12 + (k - 12) == k);
    }
    assert forall|j: int| 0 <= j < 12 && v11.contains_key(j) implies #[trigger] int_value(s, env, j) == Some(
        v11[j],
    ) by {
        assert(s[j] == s.subrange(0, 12)[j]);
    }
    lemma_run_arith(s, env, v11, 12, 12, m, v11, mc);
    let (v6, m6) = run(s, 12, m, v11, mc)->Some_0;
    let fa = final_acc(12, 11, n);
    assert(12 <= fa < m);
    assert(v6.contains_key(fa));
    assert(int_value(s, env, fa) == Some(v6[fa]));
    assert(v6[fa] == t as i32);
    lemma_iters_len(n, 12, 8, 11, 9, n, dim, strides(idx_dims), strides(dst_dims));
    assert(s.len() == m + 2);
    assert(s[m] == store(3, fa, 10, DType::I32));
    assert(v6.contains_key(10) && v6[10] == y);
    let m8 = mc.insert(3usize, mc[3usize].update(t, y));
    assert(step(s, m, v6, mc) == Some((v6, m8)));
    assert(run(s, m + 1, m + 1, v6, m8) == Some((v6, m8)));
    assert(run(s, m, m + 1, v6, mc) == Some((v6, m8)));
    assert forall|k: int| 12 <= k < m implies !(#[trigger] s[k] is Range) by {
        assert(arith_instr(s, k, v11, 12));
    }
    lemma_run_concat(s, 12, m, m + 1, v11, mc);
    assert(run(s, 11, m + 1, v10, mc) == run(s, 12, m + 1, v11, mc));
    assert(run(s, 10, m + 1, v9, mc) == run(s, 11, m + 1, v10, mc));
    assert(run(s, 9, m + 1, v8, mc) == run(s, 10, m + 1, v9, mc));
}

proof fn lemma_scatter_loop(
    dst_dims: Seq<usize>,
    idx_dims: Seq<usize>,
    dim: int,
    mem: Map<usize, Seq<i32>>,
    base: Seq<i32>,
    vals: Map<int, i32>,
    mc: Map<usize, Seq<i32>>,
    r: int,
)
    requires
        scatter_setting(mem, dst_dims, idx_dims, dim),
        targets_distinct(mem, dst_dims, idx_dims, dim),
        0 <= r <= prod(idx_dims),
        base.len() == mem[3usize].len(),
        mc.dom() == mem.dom(),
        mc[0usize] == mem[0usize],
        mc[1usize] == mem[1usize],
        mc[2usize] == mem[2usize],
        scattered(mc[3usize], base, mem, dst_dims, idx_dims, dim, r),
    ensures
        ({
            let s = scatter_kernel(dst_dims, idx_dims, dim, DType::I32);
            let m = 12 + offsets_len(dst_dims.len() as int);
            &&& run_loop(s, 8, m + 1, r, prod(idx_dims) as int, vals, mc) matches Some((vb, mb))
            &&& mb.dom() == mem.dom()
            &&& mb[0usize] == mem[0usize]
            &&& mb[1usize] == mem[1usize]
            &&& mb[2usize] == mem[2usize]
            &&& scattered(mb[3usize], base, mem, dst_dims, idx_dims, dim, prod(idx_dims) as int)
        }),
    decreases prod(idx_dims) - r,
{
    let s = scatter_kernel(dst_dims, idx_dims, dim, DType::I32);
    let m = 12 + offsets_len(dst_dims.len() as int);
    if r < prod(idx_dims) {
        lemma_scatter_body(dst_dims, idx_dims, dim, mem, vals, mc, r);
        let (v2, m2) = run(s, 9, m + 1, vals.insert(8, r as i32), mc)->Some_0;
        assert(run_loop(s, 8, m + 1, r, prod(idx_dims) as int, vals, mc) == run_loop(
            s,
            8,
            m + 1,
            r + 1,
            prod(idx_dims) as int,
            v2,
            m2,
        ));
        assert(m2.dom() =~= mem.dom());
        let t = target(mem, dst_dims, idx_dims, dim, r);
        assert forall|r2: int| 0 <= r2 < r + 1 implies m2[3usize][#[trigger] target(
            mem,
            dst_dims,
            idx_dims,
            dim,
            r2,
        )] == mem[2usize][r2] by {
            if r2 < r {
                assert(target(mem, dst_dims, idx_dims, dim, r2) != t);
                let e2 = |j: int| if j == 8 { r2 as i32 } else if j == 9 { mem[1usize][r2] } else { 0i32 };
                law_scatter_offset(dst_dims, idx_dims, dim, DType::I32, e2);
                assert(mc[3usize][target(mem, dst_dims, idx_dims, dim, r2)] == mem[2usize][r2]);
            }
        }
        assert forall|q: int|
            0 <= q < m2[3usize].len() && (forall|r2: int|
                0 <= r2 < r + 1 ==> q != #[trigger] target(mem, dst_dims, idx_dims, dim, r2)) implies m2[3usize][q]
            == base[q] by {
            assert(q != target(mem, dst_dims, idx_dims, dim, r));
            assert forall|r2: int| 0 <= r2 < r implies q != #[trigger] target(mem, dst_dims, idx_dims, dim, r2) by {
                assert(q != target(mem, dst_dims, idx_dims, dim, r2));
            }
        }
        lemma_scatter_loop(dst_dims, idx_dims, dim, mem, base, v2, m2, r + 1);
    }
}

/// The contents of the result after a scatter's first loop: a copy of the
/// tensor scattered into, over its own extent.
pub open spec fn scatter_base(mem: Map<usize, Seq<i32>>, dst_dims: Seq<usize>) -> Seq<i32> {
    Seq::new(
        mem[3usize].len(),
        |q: int| if q < prod(dst_dims) { mem[0usize][q] } else { mem[3usize][q] },
    )
}

/// Running a whole scatter kernel over `i32` values copies the tensor
/// scattered into (buffer `0`) into the result (buffer `3`), then stores each
/// value (buffer `2`) at the offset of the coordinates of its position with
/// the one along `dim` replaced by the index found there (buffer `1`); where
/// no two values go to one place, the indices lie inside the tensor along
/// `dim`, the index tensor is no longer than it along the other dimensions,
/// and the sizes fit in `i32`. Every other place of the result keeps the
/// copied element.
pub proof fn law_scatter_kernel_values(
    dst_dims: Seq<usize>,
    idx_dims: Seq<usize>,
    dim: int,
    vals: Map<int, i32>,
    mem: Map<usize, Seq<i32>>,
)
    requires
        scatter_setting(mem, dst_dims, idx_dims, dim),
        targets_distinct(mem, dst_dims, idx_dims, dim),
    ensures
        ({
            let s = scatter_kernel(dst_dims, idx_dims, dim, DType::I32);
            &&& run(s, 0, s.len() as int, vals, mem) matches Some((v2, m2))
            &&& m2.dom() == mem.dom()
            &&& m2[0usize] == mem[0usize]
            &&& m2[1usize] == mem[1usize]
            &&& m2[2usize] == mem[2usize]
            &&& scattered(m2[3usize], scatter_base(mem, dst_dims), mem, dst_dims, idx_dims, dim, prod(idx_dims) as int)
        }),
{
    let s = scatter_kernel(dst_dims, idx_dims, dim, DType::I32);
    let n = dst_dims.len() as int;
    let m = 12 + offsets_len(n);
    lemma_iters_len(n, 12, 8, 11, 9, n, dim, strides(idx_dims), strides(dst_dims));
    assert(s.len() == m + 2);
    assert(step(s, 0, vals, mem) == Some((vals, mem)));
    assert(step(s, 1, vals, mem) == Some((vals, mem)));
    assert(step(s, 2, vals, mem) == Some((vals, mem)));
    assert(step(s, 3, vals, mem) == Some((vals, mem)));
    assert forall|t: int| 0 <= t < mem[3usize].len() implies #[trigger] mem[3usize][t] == if t < 0 {
        mem[0usize][t]
    } else {
        mem[3usize][t]
    } by {}
    lemma_scatter_copy_loop(dst_dims, idx_dims, dim, mem, vals, mem, 0);
    let (v1, m1) = run_loop(s, 4, 7, 0, prod(dst_dims) as int, vals, mem)->Some_0;
    let base = scatter_base(mem, dst_dims);
    assert(m1[3usize] =~= base);
    assert(scattered(m1[3usize], base, mem, dst_dims, idx_dims, dim, 0));
    lemma_scatter_loop(dst_dims, idx_dims, dim, mem, base, v1, m1, 0);
    let (v2, m2) = run_loop(s, 8, m + 1, 0, prod(idx_dims) as int, v1, m1)->Some_0;
    assert(run(s, m + 2, m + 2, v2, m2) == Some((v2, m2)));
    assert(run(s, 8, m + 2, v1, m1) == Some((v2, m2)));
    assert(run(s, 4, m + 2, vals, mem) == Some((v2, m2)));
    assert(run(s, 3, m + 2, vals, mem) == Some((v2, m2)));
    assert(run(s, 2, m + 2, vals, mem) == Some((v2, m2)));
    assert(run(s, 1, m + 2, vals, mem) == Some((v2, m2)));
    assert(run(s, 0, m + 2, vals, mem) == Some((v2, m2)));
}

/// Gathering with the same indices from what a scatter wrote gives back the
/// scattered values: at every position of the index tensor, the gather's
/// result holds the value the scatter sent there; where no two values went
/// to one place.
pub proof fn law_gather_reads_back_scatter(
    dims: Seq<usize>,
    idx_dims: Seq<usize>,
    dim: int,
    vals: Map<int, i32>,
    mem: Map<usize, Seq<i32>>,
    gvals: Map<int, i32>,
    gmem: Map<usize, Seq<i32>>,
)
    requires
        scatter_setting(mem, dims, idx_dims, dim),
        targets_distinct(mem, dims, idx_dims, dim),
        gather_setting(gmem, dims, idx_dims, dim),
        gmem[0usize] == run(scatter_kernel(dims, idx_dims, dim, DType::I32), 0, scatter_kernel(
            dims,
            idx_dims,
            dim,
            DType::I32,
        ).len() as int, vals, mem)->Some_0.1[3usize],
        gmem[1usize] == mem[1usize],
    ensures
        ({
            let g = gather_kernel(dims, idx_dims, dim, DType::I32);
            &&& run(g, 0, g.len() as int, gvals, gmem) matches Some((g2, gm2))
            &&& forall|r: int| 0 <= r < prod(idx_dims) ==> #[trigger] gm2[2usize][r] == mem[2usize][r]
        }),
{
    law_scatter_kernel_values(dims, idx_dims, dim, vals, mem);
    law_gather_kernel_values(dims, idx_dims, dim, gvals, gmem);
    let g = gather_kernel(dims, idx_dims, dim, DType::I32);
    let gm2 = run(g, 0, g.len() as int, gvals, gmem)->Some_0.1;
    assert forall|r: int| 0 <= r < prod(idx_dims) implies #[trigger] gm2[2usize][r] == mem[2usize][r] by {
        assert(gm2[2usize][r] == gmem[0usize][target(mem, dims, idx_dims, dim, r)]);
    }
}

/// The buffers a whole pad kernel over `i32` values runs on: the source
/// (buffer `0`, `outer x src_dim x inner`) and the result (buffer `1`,
/// `outer x dst_dim x inner`).
pub open spec fn pad_buffers(
    mem: Map<usize, Seq<i32>>,
    outer: usize,
    src_dim: usize,
    dst_dim: usize,
    inner: usize,
) -> bool {
    &&& outer <= i32::MAX && dst_dim <= i32::MAX && inner <= i32::MAX
    &&& src_dim <= dst_dim
    &&& outer * (dst_dim * inner) <= i32::MAX
    &&& mem.contains_key(0usize) && mem[0usize].len() >= outer * (src_dim * inner)
    &&& mem.contains_key(1usize) && mem[1usize].len() >= outer * (dst_dim * inner)
}

/// What the padded tensor holds at offset `q`: the source's element when the
/// padded coordinate falls inside the source, shifted back by `pad_before`,
/// and the pad value `c` otherwise.
pub open spec fn pad_value(
    src: Seq<i32>,
    c: i32,
    src_dim: int,
    pad_before: int,
    dst_dim: int,
    inner: int,
    q: int,
) -> i32 {
    let (o, d, i) = coords3(q, dst_dim, inner);
    if pad_before <= d < pad_before + src_dim {
        src[offset3(o, d - pad_before, i, src_dim, inner)]
    } else {
        c
    }
}

#[verifier::spinoff_prover]
#[verifier::rlimit(100)]
proof fn lemma_pad_body(
    outer: usize,
    src_dim: usize,
    dst_dim: usize,
    inner: usize,
    pad_before: usize,
    c: i32,
    mem: Map<usize, Seq<i32>>,
    va: Map<int, i32>,
    ma: Map<usize, Seq<i32>>,
    o: int,
    d: int,
    i: int,
)
    requires
        pad_buffers(mem, outer, src_dim, dst_dim, inner),
        pad_before + src_dim <= dst_dim,
        0 <= o < outer,
        0 <= d < dst_dim,
        0 <= i < inner,
        va.contains_key(2) && va[2] == o,
        va.contains_key(3) && va[3] == d,
        va.contains_key(4) && va[4] == i,
        ma.dom() == mem.dom(),
        ma[0usize] == mem[0usize],
        ma[1usize].len() == mem[1usize].len(),
    ensures
        ({
            let s = pad_kernel(outer, src_dim, dst_dim, inner, pad_before, DType::I32, Const::I32(c));
            let p = offset3(o, d, i, dst_dim as int, inner as int);
            let inside = pad_before <= d < pad_before + src_dim;
            let val = if inside {
                mem[0usize][offset3(o, d - pad_before, i, src_dim as int, inner as int)]
            } else {
                c
            };
            &&& run(s, 5, 25, va, ma) matches Some((vb, mb))
            &&& vb.contains_key(2) && vb[2] == o
            &&& vb.contains_key(3) && vb[3] == d
            &&& vb.contains_key(4) && vb[4] == i
            &&& mb == ma.insert(1usize, ma[1usize].update(p, val))
        }),
{
    let s = pad_kernel(outer, src_dim, dst_dim, inner, pad_before, DType::I32, Const::I32(c));
    let (n, w, sd, pb) = (dst_dim as int, inner as int, src_dim as int, pad_before as int);
    let t = outer * (dst_dim * inner);
    lemma_offset3_bound(o, d, i, outer as int, n, w);
    assert(n * w <= t && w <= n * w && n <= n * w) by (nonlinear_arith)
        requires
            0 <= o < outer,
            0 <= d < n,
            0 <= i < w,
            t == outer * (n * w),
    ;
    assert(sd * w <= n * w && 0 <= sd * w) by (nonlinear_arith)
        requires
            0 <= sd <= n,
            0 <= w,
    ;
    assert(0 <= o * (sd * w) <= o * (n * w)) by (nonlinear_arith)
        requires
            0 <= o,
            0 <= sd * w <= n * w,
    ;
    assert(o * (n * w) + n * w <= t) by (nonlinear_arith)
        requires
            0 <= o < outer,
            t == outer * (n * w),
            0 <= n * w,
    ;
    assert(-(n * w) <= (d - pb) * w && (d - pb) * w + i < n * w) by (nonlinear_arith)
        requires
            0 <= d < n,
            0 <= pb <= n,
            0 <= i < w,
    ;
    let p = offset3(o, d, i, n, w);
    let inside = pb <= d < pb + sd;
    let off = o * (sd * w) + (d - pb) * w + i;
    if inside {
        lemma_offset3_bound(o, d - pb, i, outer as int, sd, w);
        assert(off == offset3(o, d - pb, i, sd, w));
    }
    let x = if 0 <= off < ma[0usize].len() {
        ma[0usize][off]
    } else {
        vstd::pervasive::arbitrary::<i32>()
    };
    let f12: i32 = if d >= pb { 1 } else { 0 };
    let f13: i32 = if d < pb + sd { 1 } else { 0 };
    let f14: i32 = if inside { 1 } else { 0 };
    let val = if inside { x } else { c };
    let v5 = va.insert(5, (o * (n * w)) as i32);
    let v6 = v5.insert(6, (o * (n * w)) as i32);
    let v7 = v6.insert(7, (d * w) as i32);
    let v8 = v7.insert(8, (o * (n * w) + d * w) as i32);
    let v9 = v8.insert(9, p as i32);
    let v10 = v9.insert(10, pb as i32);
    let v11 = v10.insert(11, (pb + sd) as i32);
    let v12 = v11.insert(12, f12);
    let v13 = v12.insert(13, f13);
    let v14 = v13.insert(14, f14);
    let v15 = v14.insert(15, (d - pb) as i32);
    let v16 = v15.insert(16, (o * (sd * w)) as i32);
    let v17 = v16.insert(17, ((d - pb) * w) as i32);
    let v18 = v17.insert(18, (o * (sd * w) + (d - pb) * w) as i32);
    let v19 = v18.insert(19, off as i32);
    let v20 = v19.insert(20, x);
    let v21 = v20.insert(21, c);
    let v22 = v21.insert(22, c);
    let v23 = v22.insert(23, val);
    let m24 = ma.insert(1usize, ma[1usize].update(p, val));
    assert(global_index(s, crate::lang::VarId(0)) == Some(0usize));
    assert(global_index(s, crate::lang::VarId(1)) == Some(1usize));
    assert(step(s, 5, va, ma) == Some((v5, ma)));
    assert(step(s, 6, v5, ma) == Some((v6, ma)));
    assert(step(s, 7, v6, ma) == Some((v7, ma)));
    assert(step(s, 8, v7, ma) == Some((v8, ma)));
    assert(step(s, 9, v8, ma) == Some((v9, ma)));
    assert(step(s, 10, v9, ma) == Some((v10, ma)));
    assert(step(s, 11, v10, ma) == Some((v11, ma)));
    assert(step(s, 12, v11, ma) == Some((v12, ma)));
    assert(step(s, 13, v12, ma) == Some((v13, ma)));
    assert(step(s, 14, v13, ma) == Some((v14, ma)));
    assert(step(s, 15, v14, ma) == Some((v15, ma)));
    assert(step(s, 16, v15, ma) == Some((v16, ma)));
    assert(step(s, 17, v16, ma) == Some((v17, ma)));
    assert(step(s, 18, v17, ma) == Some((v18, ma)));
    assert(step(s, 19, v18, ma) == Some((v19, ma)));
    assert(step(s, 20, v19, ma) == Some((v20, ma)));
    assert(step(s, 21, v20, ma) == Some((v21, ma)));
    assert(step(s, 22, v21, ma) == Some((v22, ma)));
    assert(step(s, 23, v22, ma) == Some((v23, ma)));
    assert(step(s, 24, v23, ma) == Some((v23, m24)));
    assert(run(s, 25, 25, v23, m24) == Some((v23, m24)));
    assert(run(s, 24, 25, v23, ma) == Some((v23, m24)));
    assert(run(s, 23, 25, v22, ma) == Some((v23, m24)));
    assert(run(s, 22, 25, v21, ma) == Some((v23, m24)));
    assert(run(s, 21, 25, v20, ma) == Some((v23, m24)));
    assert(run(s, 20, 25, v19, ma) == Some((v23, m24)));
    assert(run(s, 19, 25, v18, ma) == Some((v23, m24)));
    assert(run(s, 18, 25, v17, ma) == Some((v23, m24)));
    assert(run(s, 17, 25, v16, ma) == Some((v23, m24)));
    assert(run(s, 16, 25, v15, ma) == Some((v23, m24)));
    assert(run(s, 15, 25, v14, ma) == Some((v23, m24)));
    assert(run(s, 14, 25, v13, ma) == Some((v23, m24)));
    assert(run(s, 13, 25, v12, ma) == Some((v23, m24)));
    assert(run(s, 12, 25, v11, ma) == Some((v23, m24)));
    assert(run(s, 11, 25, v10, ma) == Some((v23, m24)));
    assert(run(s, 10, 25, v9, ma) == Some((v23, m24)));
    assert(run(s, 9, 25, v8, ma) == Some((v23, m24)));
    assert(run(s, 8, 25, v7, ma) == Some((v23, m24)));
    assert(run(s, 7, 25, v6, ma) == Some((v23, m24)));
    assert(run(s, 6, 25, v5, ma) == Some((v23, m24)));
    assert(run(s, 5, 25, va, ma) == Some((v23, m24)));
}

proof fn lemma_pad_inner_loop(
    outer: usize,
    src_dim: usize,
    dst_dim: usize,
    inner: usize,
    pad_before: usize,
    c: i32,
    mem: Map<usize, Seq<i32>>,
    o: int,
    d: int,
    vi: Map<int, i32>,
    mi: Map<usize, Seq<i32>>,
    i: int,
)
    requires
        pad_buffers(mem, outer, src_dim, dst_dim, inner),
        pad_before + src_dim <= dst_dim,
        0 <= o < outer,
        0 <= d < dst_dim,
        0 <= i <= inner,
        vi.contains_key(2) && vi[2] == o,
        vi.contains_key(3) && vi[3] == d,
        mi.dom() == mem.dom(),
        mi[0usize] == mem[0usize],
        prefix_written(
            mi[1usize],
            mem[1usize],
            offset3(o, d, i, dst_dim as int, inner as int),
            |q: int| pad_value(mem[0usize], c, src_dim as int, pad_before as int, dst_dim as int, inner as int, q),
        ),
    ensures
        ({
            let s = pad_kernel(outer, src_dim, dst_dim, inner, pad_before, DType::I32, Const::I32(c));
            &&& run_loop(s, 4, 25, i, inner as int, vi, mi) matches Some((vb, mb))
            &&& vb.contains_key(2) && vb[2] == o
            &&& vb.contains_key(3) && vb[3] == d
            &&& mb.dom() == mem.dom()
            &&& mb[0usize] == mem[0usize]
            &&& prefix_written(
                mb[1usize],
                mem[1usize],
                offset3(o, d, inner as int, dst_dim as int, inner as int),
                |q: int| pad_value(mem[0usize], c, src_dim as int, pad_before as int, dst_dim as int, inner as int, q),
            )
        }),
    decreases inner - i,
{
    let s = pad_kernel(outer, src_dim, dst_dim, inner, pad_before, DType::I32, Const::I32(c));
    let f = |q: int| pad_value(mem[0usize], c, src_dim as int, pad_before as int, dst_dim as int, inner as int, q);
    if i < inner {
        let va = vi.insert(4, i as i32);
        assert(inner <= outer * (dst_dim * inner)) by (nonlinear_arith)
            requires
                0 <= o < outer,
                0 <= d < dst_dim,
                0 <= inner,
        ;
        lemma_pad_body(outer, src_dim, dst_dim, inner, pad_before, c, mem, va, mi, o, d, i);
        let (v2, m2) = run(s, 5, 25, va, mi)->Some_0;
        assert(run_loop(s, 4, 25, i, inner as int, vi, mi) == run_loop(s, 4, 25, i + 1, inner as int, v2, m2));
        let p = offset3(o, d, i, dst_dim as int, inner as int);
        lemma_coords3(o, d, i, dst_dim as int, inner as int);
        lemma_offset3_bound(o, d, i, outer as int, dst_dim as int, inner as int);
        assert(m2.dom() =~= mem.dom());
        assert(offset3(o, d, i + 1, dst_dim as int, inner as int) == p + 1);
        assert forall|q: int| 0 <= q < m2[1usize].len() implies #[trigger] m2[1usize][q] == if q < p + 1 {
            f(q)
        } else {
            mem[1usize][q]
        } by {
            if q != p {
                assert(m2[1usize][q] == mi[1usize][q]);
            }
        }
        lemma_pad_inner_loop(outer, src_dim, dst_dim, inner, pad_before, c, mem, o, d, v2, m2, i + 1);
    }
}

proof fn lemma_pad_middle_loop(
    outer: usize,
    src_dim: usize,
    dst_dim: usize,
    inner: usize,
    pad_before: usize,
    c: i32,
    mem: Map<usize, Seq<i32>>,
    o: int,
    vd: Map<int, i32>,
    md: Map<usize, Seq<i32>>,
    d: int,
)
    requires
        pad_buffers(mem, outer, src_dim, dst_dim, inner),
        pad_before + src_dim <= dst_dim,
        0 <= o < outer,
        0 <= d <= dst_dim,
        vd.contains_key(2) && vd[2] == o,
        md.dom() == mem.dom(),
        md[0usize] == mem[0usize],
        prefix_written(
            md[1usize],
            mem[1usize],
            offset3(o, d, 0, dst_dim as int, inner as int),
            |q: int| pad_value(mem[0usize], c, src_dim as int, pad_before as int, dst_dim as int, inner as int, q),
        ),
    ensures
        ({
            let s = pad_kernel(outer, src_dim, dst_dim, inner, pad_before, DType::I32, Const::I32(c));
            &&& run_loop(s, 3, 26, d, dst_dim as int, vd, md) matches Some((vb, mb))
            &&& vb.contains_key(2) && vb[2] == o
            &&& mb.dom() == mem.dom()
            &&& mb[0usize] == mem[0usize]
            &&& prefix_written(
                mb[1usize],
                mem[1usize],
                offset3(o + 1, 0, 0, dst_dim as int, inner as int),
                |q: int| pad_value(mem[0usize], c, src_dim as int, pad_before as int, dst_dim as int, inner as int, q),
            )
        }),
    decreases dst_dim - d,
{
    let s = pad_kernel(outer, src_dim, dst_dim, inner, pad_before, DType::I32, Const::I32(c));
    let (n, w) = (dst_dim as int, inner as int);
    if d < dst_dim {
        let v = vd.insert(3, d as i32);
        lemma_pad_inner_loop(outer, src_dim, dst_dim, inner, pad_before, c, mem, o, d, v, md, 0);
        let (v2, m2) = run_loop(s, 4, 25, 0, w, v, md)->Some_0;
        assert(run(s, 26, 26, v2, m2) == Some((v2, m2)));
        assert(run(s, 4, 26, v, md) == Some((v2, m2)));
        assert(run_loop(s, 3, 26, d, n, vd, md) == run_loop(s, 3, 26, d + 1, n, v2, m2));
        assert(d * w + w == (d + 1) * w) by (nonlinear_arith);
        assert(offset3(o, d, w, n, w) == offset3(o, d + 1, 0, n, w));
        lemma_pad_middle_loop(outer, src_dim, dst_dim, inner, pad_before, c, mem, o, v2, m2, d + 1);
    } else {
        assert(n * w + o * (n * w) == (o + 1) * (n * w)) by (nonlinear_arith);
        assert(offset3(o, n, 0, n, w) == offset3(o + 1, 0, 0, n, w));
    }
}

proof fn lemma_pad_outer_loop(
    outer: usize,
    src_dim: usize,
    dst_dim: usize,
    inner: usize,
    pad_before: usize,
    c: i32,
    mem: Map<usize, Seq<i32>>,
    vo: Map<int, i32>,
    mo: Map<usize, Seq<i32>>,
    o: int,
)
    requires
        pad_buffers(mem, outer, src_dim, dst_dim, inner),
        pad_before + src_dim <= dst_dim,
        0 <= o <= outer,
        mo.dom() == mem.dom(),
        mo[0usize] == mem[0usize],
        prefix_written(
            mo[1usize],
            mem[1usize],
            offset3(o, 0, 0, dst_dim as int, inner as int),
            |q: int| pad_value(mem[0usize], c, src_dim as int, pad_before as int, dst_dim as int, inner as int, q),
        ),
    ensures
        ({
            let s = pad_kernel(outer, src_dim, dst_dim, inner, pad_before, DType::I32, Const::I32(c));
            &&& run_loop(s, 2, 27, o, outer as int, vo, mo) matches Some((vb, mb))
            &&& mb.dom() == mem.dom()
            &&& mb[0usize] == mem[0usize]
            &&& prefix_written(
                mb[1usize],
                mem[1usize],
                offset3(outer as int, 0, 0, dst_dim as int, inner as int),
                |q: int| pad_value(mem[0usize], c, src_dim as int, pad_before as int, dst_dim as int, inner as int, q),
            )
        }),
    decreases outer - o,
{
    let s = pad_kernel(outer, src_dim, dst_dim, inner, pad_before, DType::I32, Const::I32(c));
    if o < outer {
        let v = vo.insert(2, o as i32);
        lemma_pad_middle_loop(outer, src_dim, dst_dim, inner, pad_before, c, mem, o, v, mo, 0);
        let (v2, m2) = run_loop(s, 3, 26, 0, dst_dim as int, v, mo)->Some_0;
        assert(run(s, 27, 27, v2, m2) == Some((v2, m2)));
        assert(run(s, 3, 27, v, mo) == Some((v2, m2)));
        assert(run_loop(s, 2, 27, o, outer as int, vo, mo) == run_loop(s, 2, 27, o + 1, outer as int, v2, m2));
        lemma_pad_outer_loop(outer, src_dim, dst_dim, inner, pad_before, c, mem, v2, m2, o + 1);
    }
}

/// Running a whole pad kernel over `i32` values, with the pad value `c`,
/// stores into the result (buffer `1`), at every element `(o, d, i)` of the
/// padded tensor (`o` below the product of the dimensions before `dim`, `d`
/// below the padded length, `i` below the product of those after), the
/// source's element (buffer `0`) at `(o, d - pad_before, i)` when
/// `pad_before <= d < pad_before + src_dim`, and `c` otherwise; and leaves the
/// source and the rest of the result as they were. This holds where the sizes
/// fit in `i32`.
pub proof fn law_pad_kernel_values(
    outer: usize,
    src_dim: usize,
    pad_before: usize,
    pad_after: usize,
    inner: usize,
    c: i32,
    vals: Map<int, i32>,
    mem: Map<usize, Seq<i32>>,
)
    requires
        src_dim + pad_before + pad_after <= usize::MAX,
        pad_buffers(mem, outer, src_dim, (src_dim + pad_before + pad_after) as usize, inner),
    ensures
        ({
            let dst_dim = (src_dim + pad_before + pad_after) as usize;
            let s = pad_kernel(outer, src_dim, dst_dim, inner, pad_before, DType::I32, Const::I32(c));
            let src = mem[0usize];
            &&& run(s, 0, s.len() as int, vals, mem) matches Some((v2, m2))
            &&& m2.dom() == mem.dom()
            &&& m2[0usize] == src
            &&& m2[1usize].len() == mem[1usize].len()
            &&& forall|o: int, d: int, i: int|
                0 <= o < outer && 0 <= d < dst_dim && 0 <= i < inner ==> m2[1usize][#[trigger] offset3(
                    o,
                    d,
                    i,
                    dst_dim as int,
                    inner as int,
                )] == if pad_before <= d < pad_before + src_dim {
                    src[offset3(o, d - pad_before, i, src_dim as int, inner as int)]
                } else {
                    c
                }
            &&& forall|q: int|
                outer * (dst_dim * inner) <= q < m2[1usize].len() ==> #[trigger] m2[1usize][q] == mem[1usize][q]
        }),
{
    let dst_dim = (src_dim + pad_before + pad_after) as usize;
    let s = pad_kernel(outer, src_dim, dst_dim, inner, pad_before, DType::I32, Const::I32(c));
    let (n, w) = (dst_dim as int, inner as int);
    let f = |q: int| pad_value(mem[0usize], c, src_dim as int, pad_before as int, n, w, q);
    assert(s.len() == 28);
    assert(step(s, 0, vals, mem) == Some((vals, mem)));
    assert(step(s, 1, vals, mem) == Some((vals, mem)));
    assert(offset3(0, 0, 0, n, w) == 0) by (nonlinear_arith);
    lemma_pad_outer_loop(outer, src_dim, dst_dim, inner, pad_before, c, mem, vals, mem, 0);
    let (v2, m2) = run_loop(s, 2, 27, 0, outer as int, vals, mem)->Some_0;
    assert(run(s, 28, 28, v2, m2) == Some((v2, m2)));
    assert(run(s, 2, 28, vals, mem) == Some((v2, m2)));
    assert(run(s, 1, 28, vals, mem) == Some((v2, m2)));
    assert(run(s, 0, 28, vals, mem) == Some((v2, m2)));
    assert(offset3(outer as int, 0, 0, n, w) == outer * (n * w)) by (nonlinear_arith);
    assert forall|o: int, d: int, i: int| 0 <= o < outer && 0 <= d < dst_dim && 0 <= i < inner implies m2[1usize][
        #[trigger] offset3(o, d, i, n, w)] == if pad_before <= d < pad_before + src_dim {
        mem[0usize][offset3(o, d - pad_before, i, src_dim as int, w)]
    } else {
        c
    } by {
        lemma_coords3(o, d, i, n, w);
        lemma_offset3_bound(o, d, i, outer as int, n, w);
        assert(m2[1usize][offset3(o, d, i, n, w)] == f(offset3(o, d, i, n, w)));
    }
}

/// The variable that running instruction `k` sets, if it sets one.
pub open spec fn written(instr: Instr, k: int) -> Option<int> {
    match instr {
        Instr::DefineGlobal { .. } | Instr::Store { .. } => None,
        Instr::Assign { dst, .. } => Some(dst.0 as int),
        _ => Some(k),
    }
}

/// `v1` and `v2` hold the same variables of `set`, with the same values.
pub open spec fn agree_on(v1: Map<int, i32>, v2: Map<int, i32>, set: Set<int>) -> bool {
    forall|j: int|
        #[trigger] set.contains(j) ==> v1.contains_key(j) == v2.contains_key(j) && (v1.contains_key(j) ==> v1[j]
            == v2[j])
}

proof fn lemma_read_agrees(v1: Map<int, i32>, v2: Map<int, i32>, a: A, set: Set<int>)
    requires
        agree_on(v1, v2, set),
        a_refs(a).subset_of(set),
    ensures
        read(v1, a) == read(v2, a),
{
    if let A::Var(v) = a {
        assert(a_refs(a).contains(v.0 as int));
    }
}

/// Running an instruction reads of the variables only those `deps` names:
/// from two states that agree on them it succeeds alike, leaves the same
/// buffers, and sets the same variable to the same value, the others
/// untouched.
pub proof fn law_step_reads_only_deps(
    s: Seq<Instr>,
    k: int,
    v1: Map<int, i32>,
    v2: Map<int, i32>,
    mem: Map<usize, Seq<i32>>,
)
    requires
        0 <= k < s.len(),
        agree_on(v1, v2, deps(s[k])),
    ensures
        (step(s, k, v1, mem) is Some) == (step(s, k, v2, mem) is Some),
        step(s, k, v1, mem) matches Some((a1, m1)) ==> {
            let (a2, m2) = step(s, k, v2, mem)->Some_0;
            &&& m1 == m2
            &&& match written(s[k], k) {
                Some(w) => a1 == v1.insert(w, a1[w]) && a2 == v2.insert(w, a2[w]) && a1[w] == a2[w],
                None => a1 == v1 && a2 == v2,
            }
        },
{
    let d = deps(s[k]);
    match s[k] {
        Instr::Binary { lhs, rhs, .. } => {
            lemma_read_agrees(v1, v2, lhs, d);
            lemma_read_agrees(v1, v2, rhs, d);
        },
        Instr::Unary { arg, .. } => {
            lemma_read_agrees(v1, v2, arg, d);
        },
        Instr::Load { offset, .. } => {
            lemma_read_agrees(v1, v2, offset, d);
        },
        Instr::Store { offset, value, .. } => {
            lemma_read_agrees(v1, v2, offset, d);
            lemma_read_agrees(v1, v2, value, d);
        },
        Instr::Assign { src, .. } => {
            lemma_read_agrees(v1, v2, src, d);
        },
        Instr::Where { cond, on_true, on_false, .. } => {
            lemma_read_agrees(v1, v2, cond, d);
            lemma_read_agrees(v1, v2, on_true, d);
            lemma_read_agrees(v1, v2, on_false, d);
        },
        _ => {},
    }
    if let Some((a1, m1)) = step(s, k, v1, mem) {
        if let Some(w) = written(s[k], k) {
            assert(a1 =~= v1.insert(w, a1[w]));
            let a2 = step(s, k, v2, mem)->Some_0.0;
            assert(a2 =~= v2.insert(w, a2[w]));
        }
    }
}

} // verus!
