//! A builder that appends instructions to a kernel and keeps it well formed.
use vstd::prelude::*;
use crate::lang::{A, BinaryOp, Const, DType, Instr, UnaryOp, VarId};
use crate::ssa::{instr_ok, lemma_wf_all, wf};

verus! {

impl VarId {
    /// The operand that reads this variable.
    pub fn to_a(self) -> (a: A)
        ensures
            a == A::Var(self),
    {
        A::Var(self)
    }
}

/// Appending an instruction that satisfies `instr_ok` keeps a kernel well formed.
pub proof fn lemma_wf_push(s: Seq<Instr>, x: Instr)
    requires
        wf(s),
        instr_ok(s.push(x), s.len() as int),
    ensures
        wf(s.push(x)),
{
    let t = s.push(x);
    lemma_wf_all(s);
    lemma_wf_all(t);
    assert forall|k: int| 0 <= k < t.len() implies #[trigger] instr_ok(t, k) by {
        if k < s.len() {
            assert(instr_ok(s, k));
            assert(t[k] == s[k]);
        }
    }
}

/// A kernel under construction.
pub struct Block {
    instrs: Vec<Instr>,
}

impl View for Block {
    type V = Seq<Instr>;

    closed spec fn view(&self) -> Seq<Instr> {
        self.instrs@
    }
}

/// The range instruction `Range { lo, up, step }` whose end is not yet known;
/// it is tied to itself until `end_range` closes it.
pub open spec fn open_range(lo: i32, up: i32, step: usize, id: usize) -> Instr {
    Instr::Range {
        lo: A::Const(Const::I32(lo)),
        up: A::Const(Const::I32(up)),
        step,
        end_idx: VarId(id),
    }
}

/// The instruction `lhs op c` on `i32` values.
pub open spec fn op_cst(op: BinaryOp, lhs: VarId, c: i32) -> Instr {
    Instr::Binary { op, lhs: A::Var(lhs), rhs: A::Const(Const::I32(c)), dtype: DType::I32 }
}

/// The instruction `lhs op rhs` on two variables.
pub open spec fn op_vars(op: BinaryOp, lhs: VarId, rhs: VarId, dtype: DType) -> Instr {
    Instr::Binary { op, lhs: A::Var(lhs), rhs: A::Var(rhs), dtype }
}

/// The kernel after `end_range(r)`: the range at `r` is tied to a new
/// `EndRange` at the end, which is tied back to it.
pub open spec fn closed_range(s: Seq<Instr>, r: int) -> Seq<Instr> {
    match s[r] {
        Instr::Range { lo, up, step, .. } => s.update(
            r,
            Instr::Range { lo, up, step, end_idx: VarId(s.len() as usize) },
        ).push(Instr::EndRange { start_idx: VarId(r as usize) }),
        _ => s,
    }
}

impl Block {
    /// An empty kernel.
    pub fn empty() -> (b: Block)
        ensures
            b@ == Seq::<Instr>::empty(),
            wf(b@),
    {
        Block { instrs: Vec::new() }
    }

    /// The number of instructions so far.
    pub fn len(&self) -> (r: usize)
        ensures
            r == self@.len(),
    {
        self.instrs.len()
    }

    /// Appends an instruction that reads only earlier instructions.
    pub fn push(&mut self, instr: Instr) -> (id: VarId)
        requires
            wf(old(self)@),
            instr_ok(old(self)@.push(instr), old(self)@.len() as int),
        ensures
            final(self)@ == old(self)@.push(instr),
            id.0 == old(self)@.len(),
            wf(final(self)@),
    {
        proof {
            lemma_wf_push(self.instrs@, instr);
        }
        let id = VarId(self.instrs.len());
        self.instrs.push(instr);
        id
    }

    /// Appends the constant `v`.
    pub fn cst(&mut self, v: i32) -> (id: VarId)
        requires
            wf(old(self)@),
        ensures
            final(self)@ == old(self)@.push(Instr::Const(Const::I32(v))),
            id.0 == old(self)@.len(),
            wf(final(self)@),
    {
        self.push(Instr::Const(Const::I32(v)))
    }

    /// Appends `lhs op rhs`.
    pub fn binary(&mut self, op: BinaryOp, lhs: VarId, rhs: VarId, dtype: DType) -> (id: VarId)
        requires
            wf(old(self)@),
            lhs.0 < old(self)@.len(),
            rhs.0 < old(self)@.len(),
        ensures
            final(self)@ == old(self)@.push(op_vars(op, lhs, rhs, dtype)),
            id.0 == old(self)@.len(),
            wf(final(self)@),
    {
        self.push(Instr::Binary { op, lhs: A::Var(lhs), rhs: A::Var(rhs), dtype })
    }

    /// Appends `op arg`.
    pub fn unary(&mut self, op: UnaryOp, arg: VarId, dtype: DType) -> (id: VarId)
        requires
            wf(old(self)@),
            arg.0 < old(self)@.len(),
        ensures
            final(self)@ == old(self)@.push(Instr::Unary { op, arg: A::Var(arg), dtype }),
            id.0 == old(self)@.len(),
            wf(final(self)@),
    {
        self.push(Instr::Unary { op, arg: A::Var(arg), dtype })
    }

    /// Appends `lhs * c` on `i32` values.
    pub fn mul(&mut self, lhs: VarId, c: i32) -> (id: VarId)
        requires
            wf(old(self)@),
            lhs.0 < old(self)@.len(),
        ensures
            final(self)@ == old(self)@.push(op_cst(BinaryOp::Mul, lhs, c)),
            id.0 == old(self)@.len(),
            wf(final(self)@),
    {
        self.push(
            Instr::Binary {
                op: BinaryOp::Mul,
                lhs: A::Var(lhs),
                rhs: A::Const(Const::I32(c)),
                dtype: DType::I32,
            },
        )
    }

    /// Appends `lhs + c` on `i32` values.
    pub fn add(&mut self, lhs: VarId, c: i32) -> (id: VarId)
        requires
            wf(old(self)@),
            lhs.0 < old(self)@.len(),
        ensures
            final(self)@ == old(self)@.push(op_cst(BinaryOp::Add, lhs, c)),
            id.0 == old(self)@.len(),
            wf(final(self)@),
    {
        self.push(
            Instr::Binary {
                op: BinaryOp::Add,
                lhs: A::Var(lhs),
                rhs: A::Const(Const::I32(c)),
                dtype: DType::I32,
            },
        )
    }

    /// Opens a loop over `lo..up` with the given step; its variable is the
    /// returned id.
    pub fn range(&mut self, lo: i32, up: i32, step: usize) -> (id: VarId)
        requires
            wf(old(self)@),
        ensures
            final(self)@ == old(self)@.push(open_range(lo, up, step, old(self)@.len() as usize)),
            id.0 == old(self)@.len(),
            wf(final(self)@),
    {
        let n = self.instrs.len();
        self.push(
            Instr::Range {
                lo: A::Const(Const::I32(lo)),
                up: A::Const(Const::I32(up)),
                step,
                end_idx: VarId(n),
            },
        )
    }

    /// Closes the loop opened at `r`.
    pub fn end_range(&mut self, r: VarId)
        requires
            wf(old(self)@),
            r.0 < old(self)@.len(),
            old(self)@[r.0 as int] is Range,
        ensures
            final(self)@ == closed_range(old(self)@, r.0 as int),
            wf(final(self)@),
    {
        let ghost s = self.instrs@;
        let n = self.instrs.len();
        let (lo, up, step) = match self.instrs[r.0] {
            Instr::Range { lo, up, step, .. } => (lo, up, step),
            _ => {
                assert(false);
                (A::Const(Const::I32(0)), A::Const(Const::I32(0)), 0)
            },
        };
        let updated = Instr::Range { lo, up, step, end_idx: VarId(n) };
        self.instrs.set(r.0, updated);
        self.instrs.push(Instr::EndRange { start_idx: r });
        proof {
            let t = self.instrs@;
            assert(t == closed_range(s, r.0 as int));
            lemma_wf_all(s);
            lemma_wf_all(t);
            assert forall|k: int| 0 <= k < t.len() implies #[trigger] instr_ok(t, k) by {
                if k < n && k != r.0 {
                    assert(instr_ok(s, k));
                    assert(t[k] == s[k]);
                } else if k == r.0 {
                    assert(instr_ok(s, k));
                }
            }
        }
    }

    /// The instructions built so far.
    pub fn into_instrs(self) -> (v: Vec<Instr>)
        ensures
            v@ == self@,
    {
        self.instrs
    }
}

/// Shorthands for writing kernels down in specifications.
pub open spec fn var(i: int) -> A {
    A::Var(VarId(i as usize))
}

pub open spec fn global(index: usize, dtype: DType) -> Instr {
    Instr::DefineGlobal { index, dtype }
}

/// A loop over `0..up` with step `1`, tied to the `EndRange` at `end`.
pub open spec fn range_to(up: i32, end: int) -> Instr {
    Instr::Range {
        lo: A::Const(Const::I32(0)),
        up: A::Const(Const::I32(up)),
        step: 1,
        end_idx: VarId(end as usize),
    }
}

pub open spec fn end_of(start: int) -> Instr {
    Instr::EndRange { start_idx: VarId(start as usize) }
}

pub open spec fn cst_i32(v: i32) -> Instr {
    Instr::Const(Const::I32(v))
}

pub open spec fn bin(op: BinaryOp, l: int, r: int, dtype: DType) -> Instr {
    op_vars(op, VarId(l as usize), VarId(r as usize), dtype)
}

pub open spec fn bin_c(op: BinaryOp, l: int, c: i32) -> Instr {
    op_cst(op, VarId(l as usize), c)
}

pub open spec fn un(op: UnaryOp, arg: int, dtype: DType) -> Instr {
    Instr::Unary { op, arg: var(arg), dtype }
}

pub open spec fn load(src: int, offset: int, dtype: DType) -> Instr {
    Instr::Load { src: VarId(src as usize), offset: var(offset), dtype }
}

pub open spec fn store(dst: int, offset: int, value: int, dtype: DType) -> Instr {
    Instr::Store { dst: VarId(dst as usize), offset: var(offset), value: var(value), dtype }
}

pub open spec fn assign(dst: int, src: int) -> Instr {
    Instr::Assign { dst: VarId(dst as usize), src: var(src) }
}

pub open spec fn select(cond: int, on_true: int, on_false: int, dtype: DType) -> Instr {
    Instr::Where { cond: var(cond), on_true: var(on_true), on_false: var(on_false), dtype }
}

} // verus!
