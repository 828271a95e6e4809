//! Constant folding over SSA kernels, its specification and its laws.
//!
//! Integer operations are folded here, with the checked arithmetic of `i32`.
//! Operations on floating-point constants are handed to an evaluator that the
//! caller supplies, and whatever it answers is taken as the folded value.
use vstd::prelude::*;
use crate::lang::{A, BinaryOp, Const, DType, Instr, UnaryOp};
use crate::ssa::{a_ok, deps, deps_below, is_root, lemma_deps_below, links, wf};

verus! {

/// An operation on constants that involves floating point, handed to the
/// caller's evaluator.
#[derive(Clone, Copy, Debug, PartialEq, Eq, Structural)]
pub enum FloatFold {
    Binary(BinaryOp, Const, Const),
    Unary(UnaryOp, Const),
}

pub open spec fn opt_i32(o: Option<i32>) -> Option<Const> {
    match o {
        Some(v) => Some(Const::I32(v)),
        None => None,
    }
}

/// The `i32` encoding of a comparison result.
pub open spec fn flag(b: bool) -> Const {
    Const::I32(if b { 1 } else { 0 })
}

/// The folded value of a binary operation on two `i32` constants: checked
/// arithmetic (no value on overflow or division by zero), and `1`/`0` for
/// comparisons.
pub open spec fn fold_i32(op: BinaryOp, l: i32, r: i32) -> Option<Const> {
    match op {
        BinaryOp::Add => opt_i32(l.checked_add(r)),
        BinaryOp::Sub => opt_i32(l.checked_sub(r)),
        BinaryOp::Mul => opt_i32(l.checked_mul(r)),
        BinaryOp::Div => opt_i32(l.checked_div(r)),
        BinaryOp::Mod => opt_i32(l.checked_rem(r)),
        BinaryOp::Min => Some(Const::I32(if l <= r { l } else { r })),
        BinaryOp::Max => Some(Const::I32(if l >= r { l } else { r })),
        BinaryOp::Eq => Some(flag(l == r)),
        BinaryOp::Ne => Some(flag(l != r)),
        BinaryOp::Lt => Some(flag(l < r)),
        BinaryOp::Le => Some(flag(l <= r)),
        BinaryOp::Gt => Some(flag(l > r)),
        BinaryOp::Ge => Some(flag(l >= r)),
    }
}

/// The floating-point question that a binary fold asks, if any.
pub open spec fn binary_request(op: BinaryOp, l: Const, r: Const) -> Option<FloatFold> {
    match (l, r) {
        (Const::F32(_), Const::F32(_)) => Some(FloatFold::Binary(op, l, r)),
        _ => None,
    }
}

/// The folded value of a binary operation that involves no floating point.
pub open spec fn binary_int(op: BinaryOp, l: Const, r: Const) -> Option<Const> {
    match (l, r) {
        (Const::I32(a), Const::I32(b)) => fold_i32(op, a, b),
        _ => None,
    }
}

/// `res` is a possible fold of the binary operation.
pub open spec fn binary_folds_to<F: Fn(FloatFold) -> Option<Const>>(
    f: F,
    op: BinaryOp,
    l: Const,
    r: Const,
    res: Option<Const>,
) -> bool {
    match binary_request(op, l, r) {
        Some(q) => call_ensures(f, (q,), res),
        None => res == binary_int(op, l, r),
    }
}

/// Negation of an `i32` that wraps at the most negative value.
pub open spec fn neg_i32(v: i32) -> i32 {
    if v == i32::MIN {
        v
    } else {
        (-v) as i32
    }
}

/// The floating-point question that a unary fold asks, if any.
pub open spec fn unary_request(op: UnaryOp, c: Const) -> Option<FloatFold> {
    match c {
        Const::F32(_) => Some(FloatFold::Unary(op, c)),
        Const::I32(_) => if op == UnaryOp::Cast(DType::F32) {
            Some(FloatFold::Unary(op, c))
        } else {
            None
        },
        _ => None,
    }
}

/// The folded value of a unary operation that involves no floating point.
pub open spec fn unary_int(op: UnaryOp, c: Const) -> Option<Const> {
    match c {
        Const::I32(v) => match op {
            UnaryOp::Neg => Some(Const::I32(neg_i32(v))),
            UnaryOp::Id => Some(Const::I32(v)),
            UnaryOp::Cast(DType::I64) => Some(Const::I64(v as i64)),
            _ => None,
        },
        _ => None,
    }
}

/// `res` is a possible fold of the unary operation.
pub open spec fn unary_folds_to<F: Fn(FloatFold) -> Option<Const>>(
    f: F,
    op: UnaryOp,
    c: Const,
    res: Option<Const>,
) -> bool {
    match unary_request(op, c) {
        Some(q) => call_ensures(f, (q,), res),
        None => res == unary_int(op, c),
    }
}

/// The constant an operand stands for in kernel `s`, if it is one.
pub open spec fn resolve(s: Seq<Instr>, a: A) -> Option<Const> {
    match a {
        A::Const(c) => Some(c),
        A::Var(v) => match s[v.0 as int] {
            Instr::Const(c) => Some(c),
            _ => None,
        },
    }
}

/// Instructions that constant folding may rewrite.
pub open spec fn is_foldable(instr: Instr) -> bool {
    instr is Binary || instr is Unary
}

/// `res` is a possible fold of instruction `i` of kernel `s`.
pub open spec fn instr_folds_to<F: Fn(FloatFold) -> Option<Const>>(
    f: F,
    s: Seq<Instr>,
    i: int,
    res: Option<Const>,
) -> bool {
    match s[i] {
        Instr::Binary { op, lhs, rhs, .. } => match (resolve(s, lhs), resolve(s, rhs)) {
            (Some(l), Some(r)) => binary_folds_to(f, op, l, r, res),
            _ => res is None,
        },
        Instr::Unary { op, arg, .. } => match resolve(s, arg) {
            Some(c) => unary_folds_to(f, op, c, res),
            None => res is None,
        },
        _ => res is None,
    }
}

/// The kernel as constant folding sees it when it reaches index `i`: the
/// instructions before `i` already folded, the others as they were.
pub open spec fn fold_state(before: Seq<Instr>, after: Seq<Instr>, i: int) -> Seq<Instr> {
    after.take(i) + before.skip(i)
}

/// `new` is what constant folding may put at index `i` of kernel `m`: the
/// folded constant, or the instruction itself when it does not fold.
pub open spec fn step_folds<F: Fn(FloatFold) -> Option<Const>>(
    f: F,
    m: Seq<Instr>,
    i: int,
    new: Instr,
) -> bool {
    ||| new == m[i] && instr_folds_to(f, m, i, None)
    ||| new matches Instr::Const(c) && instr_folds_to(f, m, i, Some(c))
}

/// `after` is a result of constant folding `before` in one forward pass.
pub open spec fn constant_folded<F: Fn(FloatFold) -> Option<Const>>(
    f: F,
    before: Seq<Instr>,
    after: Seq<Instr>,
) -> bool {
    &&& after.len() == before.len()
    &&& forall|i: int|
        0 <= i < before.len() ==> #[trigger] step_folds(f, fold_state(before, after, i), i, after[i])
}

/// The operands of every foldable instruction lie inside the kernel.
pub open spec fn fold_operands_in_bounds(s: Seq<Instr>) -> bool {
    forall|i: int| 0 <= i < s.len() && is_foldable(s[i]) ==> deps_below(#[trigger] s[i], s.len() as int)
}

/// Every foldable instruction reads only earlier instructions.
pub open spec fn fold_operands_backward(s: Seq<Instr>) -> bool {
    forall|i: int| 0 <= i < s.len() && is_foldable(s[i]) ==> deps_below(#[trigger] s[i], i)
}

/// The evaluator gives one answer to each question.
pub open spec fn deterministic<F: Fn(FloatFold) -> Option<Const>>(f: F) -> bool {
    forall|q: FloatFold, r1: Option<Const>, r2: Option<Const>|
        call_ensures(f, (q,), r1) && call_ensures(f, (q,), r2) ==> r1 == r2
}

fn resolve_const(instrs: &Vec<Instr>, a: A) -> (r: Option<Const>)
    requires
        a_ok(a, instrs@.len() as int),
    ensures
        r == resolve(instrs@, a),
{
    match a {
        A::Const(c) => Some(c),
        A::Var(v) => match &instrs[v.as_usize()] {
            Instr::Const(c) => Some(*c),
            _ => None,
        },
    }
}

/// Folds a binary operation on two constants.
pub fn fold_binary<F: Fn(FloatFold) -> Option<Const>>(
    op: BinaryOp,
    lhs: Const,
    rhs: Const,
    feval: &F,
) -> (res: Option<Const>)
    requires
        forall|q: FloatFold| call_requires(*feval, (q,)),
    ensures
        binary_folds_to(*feval, op, lhs, rhs, res),
{
    match (lhs, rhs) {
        (Const::I32(l), Const::I32(r)) => {
            let v = match op {
                BinaryOp::Add => l.checked_add(r)?,
                BinaryOp::Sub => l.checked_sub(r)?,
                BinaryOp::Mul => l.checked_mul(r)?,
                BinaryOp::Div => l.checked_div(r)?,
                BinaryOp::Mod => l.checked_rem(r)?,
                BinaryOp::Min => if l <= r {
                    l
                } else {
                    r
                },
                BinaryOp::Max => if l >= r {
                    l
                } else {
                    r
                },
                BinaryOp::Eq => return Some(Const::I32(if l == r { 1 } else { 0 })),
                BinaryOp::Ne => return Some(Const::I32(if l != r { 1 } else { 0 })),
                BinaryOp::Lt => return Some(Const::I32(if l < r { 1 } else { 0 })),
                BinaryOp::Le => return Some(Const::I32(if l <= r { 1 } else { 0 })),
                BinaryOp::Gt => return Some(Const::I32(if l > r { 1 } else { 0 })),
                BinaryOp::Ge => return Some(Const::I32(if l >= r { 1 } else { 0 })),
            };
            Some(Const::I32(v))
        },
        (Const::F32(_), Const::F32(_)) => feval(FloatFold::Binary(op, lhs, rhs)),
        _ => None,
    }
}

/// Folds a unary operation on a constant.
pub fn fold_unary<F: Fn(FloatFold) -> Option<Const>>(op: UnaryOp, arg: Const, feval: &F) -> (res:
    Option<Const>)
    requires
        forall|q: FloatFold| call_requires(*feval, (q,)),
    ensures
        unary_folds_to(*feval, op, arg, res),
{
    match arg {
        Const::F32(_) => feval(FloatFold::Unary(op, arg)),
        Const::I32(v) => match op {
            UnaryOp::Neg => Some(Const::I32(if v == i32::MIN { v } else { -v })),
            UnaryOp::Id => Some(Const::I32(v)),
            UnaryOp::Cast(dt) => match dt {
                DType::F32 => feval(FloatFold::Unary(op, arg)),
                DType::I64 => Some(Const::I64(v as i64)),
                _ => None,
            },
            _ => None,
        },
        _ => None,
    }
}

/// Replaces, in one forward pass, every binary or unary instruction whose
/// operands are constants by the constant it computes, when that value exists.
/// Instructions folded earlier in the pass count as constants for later ones.
pub fn constant_fold<F: Fn(FloatFold) -> Option<Const>>(instrs: &mut Vec<Instr>, feval: &F)
    requires
        fold_operands_in_bounds(old(instrs)@),
        forall|q: FloatFold| call_requires(*feval, (q,)),
    ensures
        constant_folded(*feval, old(instrs)@, final(instrs)@),
{
    let ghost s0 = instrs@;
    let n = instrs.len();
    for i in 0..n
        invariant
            n == s0.len(),
            instrs@.len() == n,
            fold_operands_in_bounds(s0),
            forall|q: FloatFold| call_requires(*feval, (q,)),
            forall|k: int|
                0 <= k < i ==> #[trigger] step_folds(
                    *feval,
                    fold_state(s0, instrs@, k),
                    k,
                    instrs@[k],
                ),
            forall|k: int| i <= k < n ==> instrs@[k] == s0[k],
    {
        let ghost cur = instrs@;
        assert(cur =~= fold_state(s0, cur, i as int));
        assert(is_foldable(s0[i as int]) ==> deps_below(s0[i as int], n as int));
        let folded = match &instrs[i] {
            Instr::Binary { op, lhs, rhs, dtype: _ } => {
                let lc = resolve_const(instrs, *lhs);
                let rc = resolve_const(instrs, *rhs);
                match (lc, rc) {
                    (Some(l), Some(r)) => fold_binary(*op, l, r, feval),
                    _ => None,
                }
            },
            Instr::Unary { op, arg, dtype: _ } => match resolve_const(instrs, *arg) {
                Some(c) => fold_unary(*op, c, feval),
                None => None,
            },
            _ => None,
        };
        assert(instr_folds_to(*feval, cur, i as int, folded));
        if let Some(c) = folded {
            instrs.set(i, Instr::Const(c));
        }
        assert forall|k: int| 0 <= k <= i implies fold_state(s0, instrs@, k) == fold_state(
            s0,
            cur,
            k,
        ) by {
            assert(fold_state(s0, instrs@, k) =~= fold_state(s0, cur, k));
        }
        assert(step_folds(*feval, cur, i as int, instrs@[i as int]));
        assert forall|k: int| 0 <= k < i + 1 implies #[trigger] step_folds(
            *feval,
            fold_state(s0, instrs@, k),
            k,
            instrs@[k],
        ) by {
            if k < i {
                assert(step_folds(*feval, fold_state(s0, cur, k), k, cur[k]));
            }
        }
    }
}

/// Constant folding rewrites only binary and unary instructions, and only into
/// constants.
pub proof fn law_fold_rewrites_only_to_consts<F: Fn(FloatFold) -> Option<Const>>(
    f: F,
    before: Seq<Instr>,
    after: Seq<Instr>,
    i: int,
)
    requires
        constant_folded(f, before, after),
        0 <= i < before.len(),
    ensures
        after[i] == before[i] || (is_foldable(before[i]) && after[i] is Const),
{
    assert(step_folds(f, fold_state(before, after, i), i, after[i]));
    assert(fold_state(before, after, i)[i] == before[i]);
}

/// Constant folding turns a well-formed kernel into a well-formed kernel.
pub proof fn law_fold_preserves_wf<F: Fn(FloatFold) -> Option<Const>>(
    f: F,
    before: Seq<Instr>,
    after: Seq<Instr>,
)
    requires
        wf(before),
        constant_folded(f, before, after),
    ensures
        wf(after),
{
    assert forall|i: int| 0 <= i < before.len() implies after[i] == before[i] || (is_foldable(
        before[i],
    ) && after[i] is Const) by {
        law_fold_rewrites_only_to_consts(f, before, after, i);
    }
    assert forall|i: int, j: int| 0 <= i < after.len() && #[trigger] deps(after[i]).contains(
        j,
    ) implies 0 <= j < i by {
        if after[i] != before[i] {
            assert(deps(after[i]) =~= Set::empty());
        }
    }
    assert forall|i: int, j: int| 0 <= i < after.len() && #[trigger] links(after[i]).contains(
        j,
    ) implies 0 <= j < after.len() && is_root(after[j]) by {
        if after[i] != before[i] {
            assert(links(after[i]) =~= Set::empty());
        } else {
            assert(links(before[i]).contains(j));
        }
    }
}

proof fn lemma_folds_to_same_view<F: Fn(FloatFold) -> Option<Const>>(
    f: F,
    m1: Seq<Instr>,
    m2: Seq<Instr>,
    i: int,
    r: Option<Const>,
)
    requires
        0 <= i < m1.len(),
        m1.len() == m2.len(),
        m1[i] == m2[i],
        deps_below(m1[i], i),
        forall|j: int| 0 <= j < i ==> m1[j] == m2[j],
    ensures
        instr_folds_to(f, m1, i, r) == instr_folds_to(f, m2, i, r),
{
    match m1[i] {
        Instr::Binary { lhs, rhs, .. } => {
            assert(resolve(m1, lhs) == resolve(m2, lhs));
            assert(resolve(m1, rhs) == resolve(m2, rhs));
        },
        Instr::Unary { arg, .. } => {
            assert(resolve(m1, arg) == resolve(m2, arg));
        },
        _ => {},
    }
}

proof fn lemma_folds_to_unique<F: Fn(FloatFold) -> Option<Const>>(
    f: F,
    m: Seq<Instr>,
    i: int,
    r1: Option<Const>,
    r2: Option<Const>,
)
    requires
        deterministic(f),
        instr_folds_to(f, m, i, r1),
        instr_folds_to(f, m, i, r2),
    ensures
        r1 == r2,
{
}

proof fn lemma_fold_idempotent_upto<F: Fn(FloatFold) -> Option<Const>>(
    f: F,
    s0: Seq<Instr>,
    s1: Seq<Instr>,
    s2: Seq<Instr>,
    k: int,
)
    requires
        fold_operands_backward(s0),
        deterministic(f),
        constant_folded(f, s0, s1),
        constant_folded(f, s1, s2),
        0 <= k <= s0.len(),
    ensures
        forall|i: int| 0 <= i < k ==> s2[i] == s1[i],
    decreases k,
{
    if k > 0 {
        lemma_fold_idempotent_upto(f, s0, s1, s2, k - 1);
        let i = k - 1;
        let m1 = fold_state(s0, s1, i);
        let m2 = fold_state(s1, s2, i);
        assert(step_folds(f, m1, i, s1[i]));
        assert(step_folds(f, m2, i, s2[i]));
        assert(m1[i] == s0[i]);
        assert(m2[i] == s1[i]);
        if !(s1[i] is Const) && is_foldable(s0[i]) {
            assert(s1[i] == s0[i]);
            assert(instr_folds_to(f, m1, i, None));
            assert(deps_below(s0[i], i));
            assert forall|j: int| 0 <= j < i implies m1[j] == m2[j] by {
                assert(m1[j] == s1[j]);
                assert(m2[j] == s2[j]);
            }
            if s2[i] != s1[i] {
                let c = s2[i]->Const_0;
                lemma_folds_to_same_view(f, m1, m2, i, Some(c));
                lemma_folds_to_unique(f, m1, i, None, Some(c));
            }
        }
    }
}

/// With an evaluator that gives one answer to each question, a second pass of
/// constant folding changes nothing, on every kernel whose foldable
/// instructions read only earlier ones.
pub proof fn law_fold_idempotent<F: Fn(FloatFold) -> Option<Const>>(
    f: F,
    s0: Seq<Instr>,
    s1: Seq<Instr>,
    s2: Seq<Instr>,
)
    requires
        fold_operands_backward(s0),
        deterministic(f),
        constant_folded(f, s0, s1),
        constant_folded(f, s1, s2),
    ensures
        s2 == s1,
{
    lemma_fold_idempotent_upto(f, s0, s1, s2, s0.len() as int);
    assert(s2 =~= s1);
}

/// A well-formed kernel satisfies the precondition of constant folding.
pub proof fn lemma_wf_fold_operands(s: Seq<Instr>)
    requires
        wf(s),
    ensures
        fold_operands_in_bounds(s),
{
    assert forall|i: int| 0 <= i < s.len() && is_foldable(s[i]) implies deps_below(
        #[trigger] s[i],
        s.len() as int,
    ) by {
        lemma_deps_below(s[i], s.len() as int);
    }
}

/// `|x|`.
pub open spec fn abs_int(x: int) -> int {
    if x < 0 {
        -x
    } else {
        x
    }
}

/// Integer division rounding toward zero, as `i32` division does.
pub open spec fn trunc_div(l: int, r: int) -> int {
    let q = abs_int(l) / abs_int(r);
    if (l < 0) != (r < 0) {
        -q
    } else {
        q
    }
}

/// The value an `i32` binary operation on two constants has, when it has
/// one in `i32`: the exact sum, difference or product; the quotient rounded
/// toward zero and the remainder that goes with it (none for a zero divisor);
/// the smaller or larger operand; and `1` or `0` for a comparison that holds
/// or not. A remainder exists where its quotient does.
pub open spec fn i32_meaning(op: BinaryOp, l: int, r: int) -> Option<int> {
    let v = match op {
        BinaryOp::Add => Some(l + r),
        BinaryOp::Sub => Some(l - r),
        BinaryOp::Mul => Some(l * r),
        BinaryOp::Div => if r == 0 {
            None
        } else {
            Some(trunc_div(l, r))
        },
        BinaryOp::Mod => if r == 0 || !(i32::MIN <= trunc_div(l, r) <= i32::MAX) {
            None
        } else {
            Some(l - r * trunc_div(l, r))
        },
        BinaryOp::Min => Some(if l < r { l } else { r }),
        BinaryOp::Max => Some(if l < r { r } else { l }),
        BinaryOp::Eq => Some(if l == r { 1 } else { 0 }),
        BinaryOp::Ne => Some(if l == r { 0 } else { 1 }),
        BinaryOp::Lt => Some(if l < r { 1 } else { 0 }),
        BinaryOp::Le => Some(if r < l { 0 } else { 1 }),
        BinaryOp::Gt => Some(if r < l { 1 } else { 0 }),
        BinaryOp::Ge => Some(if l < r { 0 } else { 1 }),
    };
    match v {
        Some(x) => if i32::MIN <= x <= i32::MAX {
            Some(x)
        } else {
            None
        },
        None => None,
    }
}

/// Folding an `i32` binary operation gives the constant of its value, and
/// nothing exactly when the value does not exist in `i32` (overflow, or a
/// zero divisor); whatever the evaluator, since it is not asked.
pub proof fn law_fold_i32_meaning<F: Fn(FloatFold) -> Option<Const>>(
    f: F,
    op: BinaryOp,
    l: i32,
    r: i32,
    res: Option<Const>,
)
    requires
        binary_folds_to(f, op, Const::I32(l), Const::I32(r), res),
    ensures
        res == match i32_meaning(op, l as int, r as int) {
            Some(v) => Some(Const::I32(v as i32)),
            None => None,
        },
{
    let (x, d) = (l as int, r as int);
    match op {
        BinaryOp::Div => {
            if d != 0 {
                assert(x * -1 == -x);
                assert(d * -1 == -d);
                let q = abs_int(x) / abs_int(d);
                if x == 0 {
                    assert(q == 0) by {
                        vstd::arithmetic::div_mod::lemma_div_of0(abs_int(d));
                    }
                }
                let out = if x == 0 {
                    0
                } else if x > 0 && d > 0 {
                    x / d
                } else if x < 0 && d < 0 {
                    (x * -1) / (d * -1)
                } else if x < 0 {
                    ((x * -1) / d) * -1
                } else {
                    (x / (d * -1)) * -1
                };
                assert(out == trunc_div(x, d));
            }
        },
        BinaryOp::Mod => {
            if d != 0 {
                let (ax, ad) = (abs_int(x), abs_int(d));
                vstd::arithmetic::div_mod::lemma_fundamental_div_mod(ax, ad);
                vstd::arithmetic::div_mod::lemma_mod_pos_bound(ax, ad);
                let q = ax / ad;
                assert(x * -1 == -x);
                assert(d * -1 == -d);
                if x < 0 && d > 0 {
                    assert(x - d * (-q) == -(ax - ad * q)) by (nonlinear_arith)
                        requires
                            ax == -x,
                            ad == d,
                    ;
                } else if x < 0 && d < 0 {
                    assert(x - d * q == -(ax - ad * q)) by (nonlinear_arith)
                        requires
                            ax == -x,
                            ad == -d,
                    ;
                } else if x >= 0 && d < 0 {
                    assert(x - d * (-q) == ax - ad * q) by (nonlinear_arith)
                        requires
                            ax == x,
                            ad == -d,
                    ;
                }
                if x == 0 {
                    vstd::arithmetic::div_mod::lemma_div_of0(ad);
                }
                vstd::arithmetic::div_mod::lemma_div_is_ordered_by_denominator(ax, 1, ad);
                assert(ax / 1 == ax);
                assert(0 <= q <= ax);
                if l == i32::MIN && r == -1 {
                    assert(ax == 0x8000_0000);
                    assert(q == ax);
                } else {
                    if ad == 1 {
                        assert(q == ax);
                    } else {
                        vstd::arithmetic::div_mod::lemma_div_is_ordered_by_denominator(ax, 2, ad);
                        assert(ax / 2 <= 0x4000_0000);
                    }
                    assert(i32::MIN <= trunc_div(x, d) <= i32::MAX);
                }
                assert(x % d == ax - ad * q || !(x > 0 && d > 0));
            }
            assert(res == match i32_meaning(op, x, d) {
                Some(v) => Some(Const::I32(v as i32)),
                None => None,
            });
        },
        _ => {},
    }
}

/// Folding a unary operation on an `i32` constant that needs no evaluator:
/// the identity keeps the value, negation gives `-v` (and keeps `i32::MIN`,
/// whose negation wraps to itself), a cast to `i64` keeps the value, and the
/// other operations do not fold.
pub proof fn law_fold_unary_i32_meaning<F: Fn(FloatFold) -> Option<Const>>(
    f: F,
    op: UnaryOp,
    v: i32,
    res: Option<Const>,
)
    requires
        op != UnaryOp::Cast(DType::F32),
        unary_folds_to(f, op, Const::I32(v), res),
    ensures
        op == UnaryOp::Id ==> res == Some(Const::I32(v)),
        op == UnaryOp::Neg ==> (res matches Some(Const::I32(w)) && (if v == i32::MIN {
            w == v
        } else {
            w == -v
        })),
        op == UnaryOp::Cast(DType::I64) ==> (res matches Some(Const::I64(w)) && w == v),
        op != UnaryOp::Id && op != UnaryOp::Neg && op != UnaryOp::Cast(DType::I64) ==> res is None,
{
}

/// In one pass of constant folding, a binary instruction whose operands are
/// `i32` constants (counting those folded earlier in the pass) becomes the
/// constant of its value, and stays as it was exactly when that value does
/// not exist in `i32`.
pub proof fn law_constant_fold_binary_i32<F: Fn(FloatFold) -> Option<Const>>(
    f: F,
    before: Seq<Instr>,
    after: Seq<Instr>,
    i: int,
    a: i32,
    b: i32,
)
    requires
        constant_folded(f, before, after),
        0 <= i < before.len(),
        before[i] matches Instr::Binary { lhs, rhs, .. } && resolve(fold_state(before, after, i), lhs) == Some(
            Const::I32(a),
        ) && resolve(fold_state(before, after, i), rhs) == Some(Const::I32(b)),
    ensures
        after[i] == match i32_meaning(before[i]->Binary_op, a as int, b as int) {
            Some(v) => Instr::Const(Const::I32(v as i32)),
            None => before[i],
        },
{
    let m = fold_state(before, after, i);
    assert(step_folds(f, m, i, after[i]));
    assert(m[i] == before[i]);
    let op = before[i]->Binary_op;
    if after[i] == m[i] && instr_folds_to(f, m, i, None) {
        law_fold_i32_meaning(f, op, a, b, None);
    } else {
        let c = after[i]->Const_0;
        law_fold_i32_meaning(f, op, a, b, Some(c));
    }
}

/// In one pass of constant folding, a unary instruction on an `i32`
/// constant (counting those folded earlier in the pass) that needs no
/// evaluator becomes: for the identity, that constant; for negation, its
/// negation (`i32::MIN` kept); for a cast to `i64`, the same value as `i64`;
/// and stays as it was for the other operations.
pub proof fn law_constant_fold_unary_i32<F: Fn(FloatFold) -> Option<Const>>(
    f: F,
    before: Seq<Instr>,
    after: Seq<Instr>,
    i: int,
    v: i32,
)
    requires
        constant_folded(f, before, after),
        0 <= i < before.len(),
        before[i] matches Instr::Unary { op, arg, .. } && op != UnaryOp::Cast(DType::F32) && resolve(
            fold_state(before, after, i),
            arg,
        ) == Some(Const::I32(v)),
    ensures
        ({
            let op = before[i]->Unary_op;
            &&& op == UnaryOp::Id ==> after[i] == Instr::Const(Const::I32(v))
            &&& op == UnaryOp::Neg ==> (after[i] matches Instr::Const(Const::I32(w)) && (if v == i32::MIN {
                w == v
            } else {
                w == -v
            }))
            &&& op == UnaryOp::Cast(DType::I64) ==> (after[i] matches Instr::Const(Const::I64(w)) && w == v)
            &&& op != UnaryOp::Id && op != UnaryOp::Neg && op != UnaryOp::Cast(DType::I64) ==> after[i]
                == before[i]
        }),
{
    let m = fold_state(before, after, i);
    assert(step_folds(f, m, i, after[i]));
    assert(m[i] == before[i]);
    let op = before[i]->Unary_op;
    if after[i] == m[i] && instr_folds_to(f, m, i, None) {
        law_fold_unary_i32_meaning(f, op, v, None);
    } else {
        let c = after[i]->Const_0;
        law_fold_unary_i32_meaning(f, op, v, Some(c));
    }
}

} // verus!
