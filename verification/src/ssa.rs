//! The structure of SSA kernels: which instructions an instruction reads,
//! which ones it is tied to, and when a kernel is well formed.
use vstd::prelude::*;
use crate::lang::{A, Instr, VarId, Error};

verus! {

/// The instruction indices that an operand reads.
pub open spec fn a_refs(a: A) -> Set<int> {
    match a {
        A::Var(v) => set![v.0 as int],
        A::Const(_) => Set::empty(),
    }
}

/// The instruction indices whose values an instruction reads.
pub open spec fn deps(instr: Instr) -> Set<int> {
    match instr {
        Instr::Binary { lhs, rhs, .. } => a_refs(lhs).union(a_refs(rhs)),
        Instr::Unary { arg, .. } => a_refs(arg),
        Instr::Load { src, offset, .. } => set![src.0 as int].union(a_refs(offset)),
        Instr::Store { dst, offset, value, .. } => set![dst.0 as int].union(a_refs(offset)).union(
            a_refs(value),
        ),
        Instr::Assign { dst, src } => set![dst.0 as int].union(a_refs(src)),
        Instr::Range { lo, up, .. } => a_refs(lo).union(a_refs(up)),
        Instr::If { cond, .. } => a_refs(cond),
        Instr::Where { cond, on_true, on_false, .. } => a_refs(cond).union(a_refs(on_true)).union(
            a_refs(on_false),
        ),
        Instr::ReduceLocal { arg, .. } => a_refs(arg),
        _ => Set::empty(),
    }
}

/// The structural partners of a block instruction: the end of a range or of an
/// `if`, and the start of a range.
pub open spec fn links(instr: Instr) -> Set<int> {
    match instr {
        Instr::Range { end_idx, .. } => set![end_idx.0 as int],
        Instr::EndRange { start_idx } => set![start_idx.0 as int],
        Instr::If { end_idx, .. } => set![end_idx.0 as int],
        _ => Set::empty(),
    }
}

/// Instructions with an effect of their own, which dead-code elimination keeps.
pub open spec fn is_root(instr: Instr) -> bool {
    match instr {
        Instr::Store { .. } | Instr::Assign { .. } | Instr::DefineGlobal { .. }
        | Instr::DefineLocal { .. } | Instr::Range { .. } | Instr::EndRange { .. } | Instr::If {
            ..
        } | Instr::EndIf | Instr::Barrier | Instr::Special(_) | Instr::DefineAcc(_)
        | Instr::ReduceLocal { .. } => true,
        _ => false,
    }
}

/// Every index that an instruction reads or is tied to lies inside the kernel.
pub open spec fn refs_in_bounds(s: Seq<Instr>) -> bool {
    &&& forall|i: int, j: int|
        0 <= i < s.len() && #[trigger] deps(s[i]).contains(j) ==> 0 <= j < s.len()
    &&& forall|i: int, j: int|
        0 <= i < s.len() && #[trigger] links(s[i]).contains(j) ==> 0 <= j < s.len()
}

/// Every value an instruction reads was defined by an earlier instruction.
pub open spec fn refs_backward(s: Seq<Instr>) -> bool {
    forall|i: int, j: int| 0 <= i < s.len() && #[trigger] deps(s[i]).contains(j) ==> 0 <= j < i
}

/// Every structural partner lies inside the kernel and is itself a root.
pub open spec fn links_to_roots(s: Seq<Instr>) -> bool {
    forall|i: int, j: int|
        0 <= i < s.len() && #[trigger] links(s[i]).contains(j) ==> 0 <= j < s.len() && is_root(
            s[j],
        )
}

/// A well-formed kernel: values are read after they are defined, and block
/// instructions are tied to roots.
pub open spec fn wf(s: Seq<Instr>) -> bool {
    refs_backward(s) && links_to_roots(s)
}

pub proof fn lemma_wf_in_bounds(s: Seq<Instr>)
    requires
        wf(s),
    ensures
        refs_in_bounds(s),
{
}

/// An operand read by instruction `i` refers to an earlier instruction.
pub open spec fn a_ok(a: A, i: int) -> bool {
    match a {
        A::Var(v) => v.0 < i,
        A::Const(_) => true,
    }
}

/// A structural partner lies inside the kernel and is a root.
pub open spec fn link_ok(s: Seq<Instr>, v: VarId) -> bool {
    v.0 < s.len() && is_root(s[v.0 as int])
}

/// Every value an instruction reads has an index below `b`.
pub open spec fn deps_below(instr: Instr, b: int) -> bool {
    match instr {
        Instr::Binary { lhs, rhs, .. } => a_ok(lhs, b) && a_ok(rhs, b),
        Instr::Unary { arg, .. } => a_ok(arg, b),
        Instr::Load { src, offset, .. } => src.0 < b && a_ok(offset, b),
        Instr::Store { dst, offset, value, .. } => dst.0 < b && a_ok(offset, b) && a_ok(value, b),
        Instr::Assign { dst, src } => dst.0 < b && a_ok(src, b),
        Instr::Range { lo, up, .. } => a_ok(lo, b) && a_ok(up, b),
        Instr::If { cond, .. } => a_ok(cond, b),
        Instr::Where { cond, on_true, on_false, .. } => a_ok(cond, b) && a_ok(on_true, b) && a_ok(
            on_false,
            b,
        ),
        Instr::ReduceLocal { arg, .. } => a_ok(arg, b),
        _ => true,
    }
}

/// Every structural partner of an instruction satisfies `p`.
pub open spec fn links_ok(s: Seq<Instr>, instr: Instr) -> bool {
    match instr {
        Instr::Range { end_idx, .. } => link_ok(s, end_idx),
        Instr::If { end_idx, .. } => link_ok(s, end_idx),
        Instr::EndRange { start_idx } => link_ok(s, start_idx),
        _ => true,
    }
}

/// Every structural partner of an instruction lies below `b`.
pub open spec fn links_below(instr: Instr, b: int) -> bool {
    match instr {
        Instr::Range { end_idx, .. } => end_idx.0 < b,
        Instr::If { end_idx, .. } => end_idx.0 < b,
        Instr::EndRange { start_idx } => start_idx.0 < b,
        _ => true,
    }
}

/// Whether instruction `i` of the kernel satisfies the conditions of `wf`.
pub open spec fn instr_ok(s: Seq<Instr>, i: int) -> bool {
    deps_below(s[i], i) && links_ok(s, s[i])
}

proof fn lemma_a_refs(a: A, b: int, big: Set<int>)
    requires
        a_refs(a).subset_of(big),
    ensures
        (forall|j: int| big.contains(j) ==> 0 <= j < b) ==> a_ok(a, b),
{
    if let A::Var(v) = a {
        assert(a_refs(a).contains(v.0 as int));
    }
}

/// `deps_below` is the per-operand form of a bound on `deps`.
pub proof fn lemma_deps_below(instr: Instr, b: int)
    ensures
        deps_below(instr, b) <==> (forall|j: int| #[trigger] deps(instr).contains(j) ==> 0 <= j < b),
{
    let d = deps(instr);
    match instr {
        Instr::Binary { lhs, rhs, .. } => {
            lemma_a_refs(lhs, b, d);
            lemma_a_refs(rhs, b, d);
        },
        Instr::Unary { arg, .. } => {
            lemma_a_refs(arg, b, d);
        },
        Instr::Load { src, offset, .. } => {
            assert(d.contains(src.0 as int));
            lemma_a_refs(offset, b, d);
        },
        Instr::Store { dst, offset, value, .. } => {
            assert(d.contains(dst.0 as int));
            lemma_a_refs(offset, b, d);
            lemma_a_refs(value, b, d);
        },
        Instr::Assign { dst, src } => {
            assert(d.contains(dst.0 as int));
            lemma_a_refs(src, b, d);
        },
        Instr::Range { lo, up, .. } => {
            lemma_a_refs(lo, b, d);
            lemma_a_refs(up, b, d);
        },
        Instr::If { cond, .. } => {
            lemma_a_refs(cond, b, d);
        },
        Instr::Where { cond, on_true, on_false, .. } => {
            lemma_a_refs(cond, b, d);
            lemma_a_refs(on_true, b, d);
            lemma_a_refs(on_false, b, d);
        },
        Instr::ReduceLocal { arg, .. } => {
            lemma_a_refs(arg, b, d);
        },
        _ => {},
    }
}

/// `links_below` is the per-partner form of a bound on `links`.
pub proof fn lemma_links_below(instr: Instr, b: int)
    ensures
        links_below(instr, b) <==> (forall|j: int| #[trigger] links(instr).contains(j) ==> 0 <= j < b),
{
    match instr {
        Instr::Range { end_idx, .. } => assert(links(instr).contains(end_idx.0 as int)),
        Instr::If { end_idx, .. } => assert(links(instr).contains(end_idx.0 as int)),
        Instr::EndRange { start_idx } => assert(links(instr).contains(start_idx.0 as int)),
        _ => {},
    }
}

/// Under `refs_in_bounds`, every instruction reads and is tied to indices inside the kernel.
pub proof fn lemma_in_bounds_at(s: Seq<Instr>, i: int)
    requires
        refs_in_bounds(s),
        0 <= i < s.len(),
    ensures
        deps_below(s[i], s.len() as int),
        links_below(s[i], s.len() as int),
{
    lemma_deps_below(s[i], s.len() as int);
    lemma_links_below(s[i], s.len() as int);
}

/// `instr_ok` is the per-instruction form of the two conditions of `wf`.
pub proof fn lemma_instr_ok_iff(s: Seq<Instr>, i: int)
    requires
        0 <= i < s.len(),
    ensures
        instr_ok(s, i) <==> ((forall|j: int| #[trigger] deps(s[i]).contains(j) ==> 0 <= j < i) && (
        forall|j: int| #[trigger] links(s[i]).contains(j) ==> 0 <= j < s.len() && is_root(s[j]))),
{
    lemma_deps_below(s[i], i);
    match s[i] {
        Instr::Range { end_idx, .. } => assert(links(s[i]).contains(end_idx.0 as int)),
        Instr::If { end_idx, .. } => assert(links(s[i]).contains(end_idx.0 as int)),
        Instr::EndRange { start_idx } => assert(links(s[i]).contains(start_idx.0 as int)),
        _ => {},
    }
}

/// `wf` holds exactly when every instruction satisfies `instr_ok`.
pub proof fn lemma_wf_all(s: Seq<Instr>)
    ensures
        wf(s) <==> (forall|k: int| 0 <= k < s.len() ==> #[trigger] instr_ok(s, k)),
{
    assert forall|k: int| 0 <= k < s.len() implies (#[trigger] instr_ok(s, k) <==> ((forall|j: int|
        #[trigger] deps(s[k]).contains(j) ==> 0 <= j < k) && (forall|j: int| #[trigger] links(
        s[k],
    ).contains(j) ==> 0 <= j < s.len() && is_root(s[j])))) by {
        lemma_instr_ok_iff(s, k);
    }
    if forall|k: int| 0 <= k < s.len() ==> #[trigger] instr_ok(s, k) {
        assert forall|i: int, j: int| 0 <= i < s.len() && #[trigger] deps(s[i]).contains(
            j,
        ) implies 0 <= j < i by {
            assert(instr_ok(s, i));
        }
        assert forall|i: int, j: int| 0 <= i < s.len() && #[trigger] links(s[i]).contains(
            j,
        ) implies 0 <= j < s.len() && is_root(s[j]) by {
            assert(instr_ok(s, i));
        }
    }
}

/// Checks that an operand read by instruction `i` refers to an earlier instruction.
fn check_a(a: A, i: usize) -> (ok: bool)
    ensures
        ok == a_ok(a, i as int),
{
    match a {
        A::Var(v) => v.0 < i,
        A::Const(_) => true,
    }
}

/// Checks that a structural partner lies inside the kernel and is a root.
fn check_link(instrs: &Vec<Instr>, v: VarId) -> (ok: bool)
    ensures
        ok == link_ok(instrs@, v),
{
    if v.0 < instrs.len() {
        match &instrs[v.0] {
            Instr::Store { .. } | Instr::Assign { .. } | Instr::DefineGlobal { .. }
            | Instr::DefineLocal { .. } | Instr::Range { .. } | Instr::EndRange { .. } | Instr::If {
                ..
            } | Instr::EndIf | Instr::Barrier | Instr::Special(_) | Instr::DefineAcc(_)
            | Instr::ReduceLocal { .. } => true,
            _ => false,
        }
    } else {
        false
    }
}

fn check_instr(instrs: &Vec<Instr>, i: usize) -> (ok: bool)
    requires
        i < instrs@.len(),
    ensures
        ok == instr_ok(instrs@, i as int),
{
    match &instrs[i] {
        Instr::Binary { lhs, rhs, .. } => check_a(*lhs, i) && check_a(*rhs, i),
        Instr::Unary { arg, .. } => check_a(*arg, i),
        Instr::Load { src, offset, .. } => src.0 < i && check_a(*offset, i),
        Instr::Store { dst, offset, value, .. } => dst.0 < i && check_a(*offset, i) && check_a(
            *value,
            i,
        ),
        Instr::Assign { dst, src } => dst.0 < i && check_a(*src, i),
        Instr::Range { lo, up, end_idx, .. } => check_a(*lo, i) && check_a(*up, i) && check_link(
            instrs,
            *end_idx,
        ),
        Instr::If { cond, end_idx } => check_a(*cond, i) && check_link(instrs, *end_idx),
        Instr::EndRange { start_idx } => check_link(instrs, *start_idx),
        Instr::Where { cond, on_true, on_false, .. } => check_a(*cond, i) && check_a(*on_true, i)
            && check_a(*on_false, i),
        Instr::ReduceLocal { arg, .. } => check_a(*arg, i),
        _ => true,
    }
}

/// Checks that a sequence of instructions is a well-formed kernel; on failure,
/// reports the first instruction that breaks it.
pub fn check_wf(instrs: &Vec<Instr>) -> (r: Result<(), Error>)
    ensures
        r is Ok <==> wf(instrs@),
        r matches Err(Error::InvalidKernel { index }) ==> index < instrs@.len() && !instr_ok(
            instrs@,
            index as int,
        ) && forall|j: int| 0 <= j < index ==> instr_ok(instrs@, j),
        r is Err ==> r matches Err(Error::InvalidKernel { .. }),
{
    let n = instrs.len();
    for i in 0..n
        invariant
            n == instrs@.len(),
            forall|j: int| 0 <= j < i ==> instr_ok(instrs@, j),
    {
        if !check_instr(instrs, i) {
            proof {
                lemma_wf_all(instrs@);
            }
            return Err(Error::InvalidKernel { index: i });
        }
    }
    proof {
        lemma_wf_all(instrs@);
    }
    Ok(())
}

} // verus!
