//! Dead-code elimination over SSA kernels, its specification and its laws.
use vstd::prelude::*;
use crate::lang::{A, Const, Instr, VarId};
use crate::ssa::{wf, refs_backward, a_ok, a_refs, deps, deps_below, is_root, lemma_in_bounds_at, links, refs_in_bounds};

verus! {

/// `live` with every index of `set` marked.
pub open spec fn mark(live: Seq<bool>, set: Set<int>) -> Seq<bool> {
    Seq::new(live.len(), |k: int| live[k] || set.contains(k))
}

/// The first, backward pass at index `i`: a live instruction marks what it
/// reads; a dead root marks itself, its structural partners and what it reads.
pub open spec fn pass1_step(s: Seq<Instr>, i: int, live: Seq<bool>) -> Seq<bool> {
    if live[i] {
        mark(live, deps(s[i]))
    } else if is_root(s[i]) {
        mark(live, set![i].union(links(s[i])).union(deps(s[i])))
    } else {
        live
    }
}

/// The first pass over indices `k - 1` down to `0`.
pub open spec fn pass1(s: Seq<Instr>, k: int, live: Seq<bool>) -> Seq<bool>
    decreases k,
{
    if k <= 0 {
        live
    } else {
        pass1(s, k - 1, pass1_step(s, k - 1, live))
    }
}

/// The second, backward pass at index `i`: a live instruction marks what it reads.
pub open spec fn pass2_step(s: Seq<Instr>, i: int, live: Seq<bool>) -> Seq<bool> {
    if live[i] {
        mark(live, deps(s[i]))
    } else {
        live
    }
}

/// The second pass over indices `k - 1` down to `0`.
pub open spec fn pass2(s: Seq<Instr>, k: int, live: Seq<bool>) -> Seq<bool>
    decreases k,
{
    if k <= 0 {
        live
    } else {
        pass2(s, k - 1, pass2_step(s, k - 1, live))
    }
}

pub open spec fn all_dead(n: nat) -> Seq<bool> {
    Seq::new(n, |k: int| false)
}

/// The instructions that dead-code elimination keeps.
pub open spec fn dce_live(s: Seq<Instr>) -> Seq<bool> {
    pass2(s, s.len() as int, pass1(s, s.len() as int, all_dead(s.len())))
}

/// The placeholder that replaces a removed instruction.
pub open spec fn dead_instr() -> Instr {
    Instr::Const(Const::I32(0))
}

/// The kernel after dead-code elimination: kept instructions stay in place,
/// the others become the constant `0`.
pub open spec fn dce(s: Seq<Instr>) -> Seq<Instr> {
    Seq::new(s.len(), |i: int| if dce_live(s)[i] { s[i] } else { dead_instr() })
}

proof fn lemma_mark_mark(l: Seq<bool>, a: Set<int>, b: Set<int>)
    ensures
        mark(mark(l, a), b) == mark(l, a.union(b)),
{
    assert(mark(mark(l, a), b) =~= mark(l, a.union(b)));
}

fn mark_a(a: A, live: &mut Vec<bool>)
    requires
        a_ok(a, old(live)@.len() as int),
    ensures
        final(live)@ == mark(old(live)@, a_refs(a)),
{
    if let A::Var(v) = a {
        assert(a_refs(a).contains(v.0 as int));
        live.set(v.as_usize(), true);
    }
    assert(live@ =~= mark(old(live)@, a_refs(a)));
}

fn mark_var(v: VarId, live: &mut Vec<bool>)
    requires
        v.0 < old(live)@.len(),
    ensures
        final(live)@ == mark(old(live)@, set![v.0 as int]),
{
    live.set(v.as_usize(), true);
    assert(live@ =~= mark(old(live)@, set![v.0 as int]));
}

fn mark_deps(instr: &Instr, live: &mut Vec<bool>)
    requires
        deps_below(*instr, old(live)@.len() as int),
    ensures
        final(live)@ == mark(old(live)@, deps(*instr)),
{
    let ghost l0 = live@;
    match instr {
        Instr::Binary { lhs, rhs, .. } => {
            mark_a(*lhs, live);
            mark_a(*rhs, live);
            proof {
                lemma_mark_mark(l0, a_refs(*lhs), a_refs(*rhs));
            }
        },
        Instr::Unary { arg, .. } => mark_a(*arg, live),
        Instr::Load { src, offset, .. } => {
            live.set(src.as_usize(), true);
            assert(live@ =~= mark(l0, set![src.0 as int]));
            mark_a(*offset, live);
            proof {
                lemma_mark_mark(l0, set![src.0 as int], a_refs(*offset));
            }
        },
        Instr::Store { dst, offset, value, .. } => {
            live.set(dst.as_usize(), true);
            assert(live@ =~= mark(l0, set![dst.0 as int]));
            mark_a(*offset, live);
            mark_a(*value, live);
            proof {
                lemma_mark_mark(l0, set![dst.0 as int], a_refs(*offset));
                lemma_mark_mark(l0, set![dst.0 as int].union(a_refs(*offset)), a_refs(*value));
            }
        },
        Instr::Assign { dst, src } => {
            live.set(dst.as_usize(), true);
            assert(live@ =~= mark(l0, set![dst.0 as int]));
            mark_a(*src, live);
            proof {
                lemma_mark_mark(l0, set![dst.0 as int], a_refs(*src));
            }
        },
        Instr::Range { lo, up, .. } => {
            mark_a(*lo, live);
            mark_a(*up, live);
            proof {
                lemma_mark_mark(l0, a_refs(*lo), a_refs(*up));
            }
        },
        Instr::If { cond, .. } => mark_a(*cond, live),
        Instr::Where { cond, on_true, on_false, .. } => {
            mark_a(*cond, live);
            mark_a(*on_true, live);
            mark_a(*on_false, live);
            proof {
                lemma_mark_mark(l0, a_refs(*cond), a_refs(*on_true));
                lemma_mark_mark(l0, a_refs(*cond).union(a_refs(*on_true)), a_refs(*on_false));
            }
        },
        Instr::ReduceLocal { arg, .. } => mark_a(*arg, live),
        Instr::DefineAcc(_)
        | Instr::DefineGlobal { .. }
        | Instr::DefineLocal { .. }
        | Instr::Special(_)
        | Instr::Const(_)
        | Instr::EndRange { .. }
        | Instr::EndIf
        | Instr::Barrier => {
            assert(live@ =~= mark(l0, deps(*instr)));
        },
    }
}

/// Replaces every instruction that neither has an effect of its own nor
/// contributes to one by the constant `0`, keeping every index in place.
///
/// An instruction is kept when it is a root (a store, an assignment, a
/// definition of a buffer, an accumulator or a special index, a block
/// instruction, a barrier or a local reduction), or when a kept instruction
/// reads it. Block instructions also keep their partners.
pub fn dead_code_elimination(instrs: &mut Vec<Instr>)
    requires
        refs_in_bounds(old(instrs)@),
    ensures
        final(instrs)@ == dce(old(instrs)@),
{
    let n = instrs.len();
    let ghost s = instrs@;
    let mut live: Vec<bool> = vec![false; n];
    assert(live@ =~= all_dead(n as nat));

    let mut i: usize = n;
    while i > 0
        invariant
            live@.len() == n,
            instrs@ == s,
            s.len() == n,
            i <= n,
            refs_in_bounds(s),
            pass1(s, n as int, all_dead(n as nat)) == pass1(s, i as int, live@),
        decreases i,
    {
        i -= 1;
        let ghost before = live@;
        proof {
            lemma_in_bounds_at(s, i as int);
        }
        assert(pass1(s, (i + 1) as int, before) == pass1(s, i as int, pass1_step(s, i as int, before)));
        if live[i] {
            mark_deps(&instrs[i], &mut live);
            continue;
        }
        match &instrs[i] {
            Instr::Store { dst, offset, value, .. } => {
                live.set(i, true);
                mark_var(*dst, &mut live);
                mark_a(*offset, &mut live);
                mark_a(*value, &mut live);
            },
            Instr::Assign { dst, src } => {
                live.set(i, true);
                mark_var(*dst, &mut live);
                mark_a(*src, &mut live);
            },
            Instr::DefineGlobal { .. } | Instr::DefineLocal { .. } => {
                live.set(i, true);
            },
            Instr::Range { end_idx, .. } => {
                live.set(i, true);
                live.set(end_idx.as_usize(), true);
                mark_deps(&instrs[i], &mut live);
            },
            Instr::EndRange { start_idx } => {
                live.set(i, true);
                live.set(start_idx.as_usize(), true);
            },
            Instr::If { end_idx, .. } => {
                live.set(i, true);
                live.set(end_idx.as_usize(), true);
                mark_deps(&instrs[i], &mut live);
            },
            Instr::EndIf => {
                live.set(i, true);
            },
            Instr::Barrier => {
                live.set(i, true);
            },
            Instr::Special(_) | Instr::DefineAcc(_) => {
                live.set(i, true);
            },
            Instr::ReduceLocal { arg, .. } => {
                live.set(i, true);
                mark_a(*arg, &mut live);
            },
            _ => {},
        }
        assert(live@ =~= pass1_step(s, i as int, before));
    }

    let ghost after1 = live@;
    let mut i: usize = n;
    while i > 0
        invariant
            live@.len() == n,
            instrs@ == s,
            s.len() == n,
            i <= n,
            refs_in_bounds(s),
            pass2(s, n as int, after1) == pass2(s, i as int, live@),
        decreases i,
    {
        i -= 1;
        let ghost before = live@;
        proof {
            lemma_in_bounds_at(s, i as int);
        }
        assert(pass2(s, (i + 1) as int, before) == pass2(s, i as int, pass2_step(s, i as int, before)));
        if live[i] {
            mark_deps(&instrs[i], &mut live);
        }
        assert(live@ =~= pass2_step(s, i as int, before));
    }
    assert(live@ == dce_live(s));

    let mut i: usize = 0;
    while i < n
        invariant
            live@ == dce_live(s),
            live@.len() == n,
            instrs@.len() == n,
            s.len() == n,
            i <= n,
            forall|k: int| 0 <= k < i ==> instrs@[k] == dce(s)[k],
            forall|k: int| i <= k < n ==> instrs@[k] == s[k],
        decreases n - i,
    {
        if !live[i] {
            instrs.set(i, Instr::Const(Const::I32(0)));
        }
        i += 1;
    }
    assert(instrs@ =~= dce(s));
}


/// Instruction `i` is a root, or a later instruction marked in `l` reads it.
pub open spec fn justified(s: Seq<Instr>, l: Seq<bool>, i: int) -> bool {
    is_root(s[i]) || exists|j: int| i < j < s.len() && l[j] && #[trigger] deps(s[j]).contains(i)
}

/// Every root is marked.
pub open spec fn roots_marked(s: Seq<Instr>, l: Seq<bool>) -> bool {
    forall|i: int| 0 <= i < s.len() && is_root(s[i]) ==> #[trigger] l[i]
}

/// Whatever a marked instruction reads is marked.
pub open spec fn marks_closed(s: Seq<Instr>, l: Seq<bool>) -> bool {
    forall|i: int, j: int| 0 <= i < s.len() && l[i] && #[trigger] deps(s[i]).contains(j) ==> l[j]
}

/// Every marked instruction is justified.
pub open spec fn marks_justified(s: Seq<Instr>, l: Seq<bool>) -> bool {
    forall|i: int| 0 <= i < s.len() && #[trigger] l[i] ==> justified(s, l, i)
}

/// A marking that contains the roots, is closed under reads and marks nothing
/// without a reason.
pub open spec fn is_live_set(s: Seq<Instr>, l: Seq<bool>) -> bool {
    &&& l.len() == s.len()
    &&& roots_marked(s, l)
    &&& marks_closed(s, l)
    &&& marks_justified(s, l)
}

spec fn pass1_inv(s: Seq<Instr>, k: int, l: Seq<bool>) -> bool {
    &&& l.len() == s.len()
    &&& forall|i: int| k <= i < s.len() && is_root(s[i]) ==> #[trigger] l[i]
    &&& marks_justified(s, l)
}

spec fn pass2_inv(s: Seq<Instr>, k: int, l: Seq<bool>) -> bool {
    &&& l.len() == s.len()
    &&& roots_marked(s, l)
    &&& marks_justified(s, l)
    &&& forall|i: int, j: int|
        k <= i < s.len() && l[i] && #[trigger] deps(s[i]).contains(j) ==> l[j]
}

proof fn lemma_justified_grows(s: Seq<Instr>, l: Seq<bool>, l2: Seq<bool>, i: int)
    requires
        l.len() == s.len(),
        l2.len() == s.len(),
        forall|k: int| 0 <= k < s.len() && l[k] ==> #[trigger] l2[k],
        justified(s, l, i),
    ensures
        justified(s, l2, i),
{
    if !is_root(s[i]) {
        let j = choose|j: int| i < j < s.len() && l[j] && #[trigger] deps(s[j]).contains(i);
        assert(l2[j]);
    }
}

proof fn lemma_pass1(s: Seq<Instr>, k: int, l: Seq<bool>)
    requires
        wf(s),
        0 <= k <= s.len(),
        pass1_inv(s, k, l),
    ensures
        pass1_inv(s, 0, pass1(s, k, l)),
    decreases k,
{
    if k > 0 {
        let m = k - 1;
        let l2 = pass1_step(s, m, l);
        assert(forall|q: int| 0 <= q < s.len() && l[q] ==> #[trigger] l2[q]);
        assert forall|i: int| 0 <= i < s.len() && #[trigger] l2[i] implies justified(s, l2, i) by {
            if l[i] {
                lemma_justified_grows(s, l, l2, i);
            } else if i == m {
            } else if links(s[m]).contains(i) {
            } else {
                assert(deps(s[m]).contains(i));
                assert(l2[m]);
            }
        }
        lemma_pass1(s, m, l2);
    }
}

proof fn lemma_pass2(s: Seq<Instr>, k: int, l: Seq<bool>)
    requires
        wf(s),
        0 <= k <= s.len(),
        pass2_inv(s, k, l),
    ensures
        pass2_inv(s, 0, pass2(s, k, l)),
    decreases k,
{
    if k > 0 {
        let m = k - 1;
        let l2 = pass2_step(s, m, l);
        assert(forall|q: int| 0 <= q < s.len() && l[q] ==> #[trigger] l2[q]);
        assert forall|i: int| 0 <= i < s.len() && #[trigger] l2[i] implies justified(s, l2, i) by {
            if l[i] {
                lemma_justified_grows(s, l, l2, i);
            } else {
                assert(deps(s[m]).contains(i));
                assert(l2[m]);
            }
        }
        assert forall|i: int, j: int|
            m <= i < s.len() && l2[i] && #[trigger] deps(s[i]).contains(j) implies l2[j] by {
            if i > m && !l[i] {
                assert(deps(s[m]).contains(i));
            }
        }
        lemma_pass2(s, m, l2);
    }
}

/// The marking that dead-code elimination computes on a well-formed kernel
/// contains the roots, is closed under reads and marks nothing without a reason.
pub proof fn lemma_dce_live_is_live_set(s: Seq<Instr>)
    requires
        wf(s),
    ensures
        is_live_set(s, dce_live(s)),
{
    let n = s.len() as int;
    let l0 = all_dead(s.len());
    lemma_pass1(s, n, l0);
    let l1 = pass1(s, n, l0);
    lemma_pass2(s, n, l1);
}

proof fn lemma_unique_from(s: Seq<Instr>, x: Seq<bool>, y: Seq<bool>, k: int)
    requires
        refs_backward(s),
        is_live_set(s, x),
        is_live_set(s, y),
        0 <= k <= s.len(),
    ensures
        forall|i: int| k <= i < s.len() ==> x[i] == y[i],
    decreases s.len() - k,
{
    if k < s.len() {
        lemma_unique_from(s, x, y, k + 1);
        if x[k] && !is_root(s[k]) {
            assert(justified(s, x, k));
            let j = choose|j: int| k < j < s.len() && x[j] && #[trigger] deps(s[j]).contains(k);
            assert(y[j]);
        }
        if y[k] && !is_root(s[k]) {
            assert(justified(s, y, k));
            let j = choose|j: int| k < j < s.len() && y[j] && #[trigger] deps(s[j]).contains(k);
            assert(x[j]);
        }
        if is_root(s[k]) {
            assert(x[k] && y[k]);
        }
    }
}

/// On a kernel whose instructions read only earlier ones, there is exactly one
/// marking that contains the roots, is closed under reads and marks nothing
/// without a reason.
pub proof fn lemma_live_set_unique(s: Seq<Instr>, x: Seq<bool>, y: Seq<bool>)
    requires
        refs_backward(s),
        is_live_set(s, x),
        is_live_set(s, y),
    ensures
        x == y,
{
    lemma_unique_from(s, x, y, 0);
    assert(x =~= y);
}

proof fn lemma_mark_grows(l: Seq<bool>, set: Set<int>)
    ensures
        mark(l, set).len() == l.len(),
        forall|q: int| 0 <= q < l.len() && l[q] ==> #[trigger] mark(l, set)[q],
{
}

proof fn lemma_pass1_grows(s: Seq<Instr>, k: int, l: Seq<bool>)
    ensures
        pass1(s, k, l).len() == l.len(),
        forall|q: int| 0 <= q < l.len() && l[q] ==> #[trigger] pass1(s, k, l)[q],
    decreases k,
{
    if k > 0 {
        let l2 = pass1_step(s, k - 1, l);
        lemma_mark_grows(l, deps(s[k - 1]));
        lemma_mark_grows(l, set![k - 1].union(links(s[k - 1])).union(deps(s[k - 1])));
        lemma_pass1_grows(s, k - 1, l2);
    }
}

proof fn lemma_pass2_grows(s: Seq<Instr>, k: int, l: Seq<bool>)
    ensures
        pass2(s, k, l).len() == l.len(),
        forall|q: int| 0 <= q < l.len() && l[q] ==> #[trigger] pass2(s, k, l)[q],
    decreases k,
{
    if k > 0 {
        let l2 = pass2_step(s, k - 1, l);
        lemma_mark_grows(l, deps(s[k - 1]));
        lemma_pass2_grows(s, k - 1, l2);
    }
}

proof fn lemma_pass1_roots(s: Seq<Instr>, k: int, l: Seq<bool>, i: int)
    requires
        0 <= i < k <= l.len(),
        is_root(s[i]),
    ensures
        pass1(s, k, l)[i],
    decreases k,
{
    let l2 = pass1_step(s, k - 1, l);
    lemma_mark_grows(l, deps(s[k - 1]));
    lemma_mark_grows(l, set![k - 1].union(links(s[k - 1])).union(deps(s[k - 1])));
    if i == k - 1 {
        assert(l2[i]);
        lemma_pass1_grows(s, k - 1, l2);
    } else {
        lemma_pass1_roots(s, k - 1, l2, i);
    }
}

/// Kernels `s` and `t` agree at `i`, or differ there only in instructions that
/// are not roots and that marking `p` leaves unmarked.
spec fn agree_at(s: Seq<Instr>, t: Seq<Instr>, i: int, p: Seq<bool>) -> bool {
    s[i] == t[i] || (!is_root(s[i]) && !is_root(t[i]) && !p[i])
}

/// Where two kernels differ only at instructions that are not roots and that
/// the first pass leaves unmarked, the first pass marks the same.
proof fn lemma_pass1_agree(s: Seq<Instr>, t: Seq<Instr>, k: int, l: Seq<bool>)
    requires
        0 <= k <= l.len(),
        forall|i: int| 0 <= i < k ==> #[trigger] agree_at(s, t, i, pass1(s, k, l)),
    ensures
        pass1(t, k, l) == pass1(s, k, l),
    decreases k,
{
    if k > 0 {
        let m = k - 1;
        let ls = pass1_step(s, m, l);
        let lt = pass1_step(t, m, l);
        lemma_mark_grows(l, deps(s[m]));
        lemma_mark_grows(l, set![m].union(links(s[m])).union(deps(s[m])));
        lemma_pass1_grows(s, m, ls);
        assert(pass1(s, m, ls) == pass1(s, k, l));
        assert(agree_at(s, t, m, pass1(s, k, l)));
        if s[m] != t[m] {
            assert(!l[m]);
        }
        assert(lt == ls);
        assert forall|i: int| 0 <= i < m implies #[trigger] agree_at(s, t, i, pass1(s, m, ls)) by {
            assert(agree_at(s, t, i, pass1(s, k, l)));
        }
        lemma_pass1_agree(s, t, m, ls);
    }
}

/// Where two kernels differ only at instructions that the second pass leaves
/// unmarked, the second pass marks the same.
proof fn lemma_pass2_agree(s: Seq<Instr>, t: Seq<Instr>, k: int, l: Seq<bool>)
    requires
        0 <= k <= l.len(),
        forall|i: int| 0 <= i < k ==> s[i] == t[i] || !#[trigger] pass2(s, k, l)[i],
    ensures
        pass2(t, k, l) == pass2(s, k, l),
    decreases k,
{
    if k > 0 {
        let m = k - 1;
        let ls = pass2_step(s, m, l);
        let lt = pass2_step(t, m, l);
        lemma_mark_grows(l, deps(s[m]));
        lemma_pass2_grows(s, m, ls);
        if s[m] != t[m] {
            assert(!pass2(s, k, l)[m]);
            assert(!l[m]);
        }
        assert(lt == ls);
        assert forall|i: int| 0 <= i < m implies s[i] == t[i] || !#[trigger] pass2(s, m, ls)[i] by {
            assert(pass2(s, m, ls) == pass2(s, k, l));
        }
        lemma_pass2_agree(s, t, m, ls);
    }
}

/// Dead-code elimination keeps every root of a kernel whose references lie
/// inside it.
pub proof fn law_dce_keeps_roots(s: Seq<Instr>, i: int)
    requires
        refs_in_bounds(s),
        0 <= i < s.len(),
        is_root(s[i]),
    ensures
        dce_live(s)[i],
        dce(s)[i] == s[i],
{
    let n = s.len() as int;
    let l0 = all_dead(s.len());
    lemma_pass1_roots(s, n, l0, i);
    lemma_pass1_grows(s, n, l0);
    lemma_pass2_grows(s, n, pass1(s, n, l0));
}

/// Dead-code elimination keeps everything that a kept instruction reads.
pub proof fn law_dce_closed(s: Seq<Instr>, i: int, j: int)
    requires
        wf(s),
        0 <= i < s.len(),
        dce_live(s)[i],
        deps(s[i]).contains(j),
    ensures
        0 <= j < i,
        dce_live(s)[j],
        dce(s)[j] == s[j],
{
    lemma_dce_live_is_live_set(s);
}

/// Dead-code elimination keeps an instruction only when it is a root or a later
/// kept instruction reads it.
pub proof fn law_dce_minimal(s: Seq<Instr>, i: int)
    requires
        wf(s),
        0 <= i < s.len(),
        dce_live(s)[i],
    ensures
        is_root(s[i]) || exists|j: int|
            i < j < s.len() && dce_live(s)[j] && #[trigger] deps(s[j]).contains(i),
{
    lemma_dce_live_is_live_set(s);
}

/// The instructions kept by dead-code elimination are exactly the least set that
/// contains the roots and is closed under reads.
pub proof fn law_dce_kept_is_unique(s: Seq<Instr>, l: Seq<bool>)
    requires
        wf(s),
        is_live_set(s, l),
    ensures
        l == dce_live(s),
{
    lemma_dce_live_is_live_set(s);
    lemma_live_set_unique(s, l, dce_live(s));
}

/// Dead-code elimination turns a well-formed kernel into a well-formed kernel.
pub proof fn law_dce_preserves_wf(s: Seq<Instr>)
    requires
        wf(s),
    ensures
        wf(dce(s)),
{
    lemma_dce_live_is_live_set(s);
    let t = dce(s);
    let l = dce_live(s);
    assert forall|i: int, j: int| 0 <= i < t.len() && #[trigger] deps(t[i]).contains(j) implies 0
        <= j < i by {
        if !l[i] {
            assert(deps(dead_instr()) =~= Set::empty());
        }
    }
    assert forall|i: int, j: int| 0 <= i < t.len() && #[trigger] links(t[i]).contains(j) implies 0
        <= j < t.len() && is_root(t[j]) by {
        if !l[i] {
            assert(links(dead_instr()) =~= Set::empty());
        } else {
            assert(links(s[i]).contains(j));
            assert(l[j]);
        }
    }
}

/// Running dead-code elimination twice on a kernel whose references lie
/// inside it gives the same result as running it once.
pub proof fn law_dce_idempotent(s: Seq<Instr>)
    requires
        refs_in_bounds(s),
    ensures
        dce(dce(s)) == dce(s),
{
    let n = s.len() as int;
    let t = dce(s);
    let l0 = all_dead(s.len());
    let p = pass1(s, n, l0);
    let l = dce_live(s);
    lemma_pass1_grows(s, n, l0);
    lemma_pass2_grows(s, n, p);
    assert(deps(dead_instr()) =~= Set::empty());
    assert forall|i: int| 0 <= i < n implies #[trigger] agree_at(s, t, i, p) by {
        if s[i] != t[i] {
            assert(!l[i]);
            if is_root(s[i]) {
                lemma_pass1_roots(s, n, l0, i);
            }
        }
    }
    lemma_pass1_agree(s, t, n, l0);
    lemma_pass2_agree(s, t, n, p);
    assert(dce_live(t) == l);
    assert(dce(t) =~= t);
}

} // verus!
