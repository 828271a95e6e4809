//! Well-formed kernels and their optimization pipeline.
use vstd::prelude::*;
use crate::dce::{dce, dead_code_elimination, law_dce_keeps_roots, law_dce_preserves_wf};
use crate::fold::{
    constant_fold, constant_folded, is_foldable, law_fold_preserves_wf, law_fold_rewrites_only_to_consts,
    lemma_wf_fold_operands, FloatFold,
};
use crate::lang::{Const, Error, Instr};
use crate::ssa::{check_wf, is_root, lemma_wf_in_bounds, wf};

verus! {

/// A kernel: a sequence of SSA instructions that is always well formed.
pub struct Kernel {
    instrs: Vec<Instr>,
}

impl View for Kernel {
    type V = Seq<Instr>;

    closed spec fn view(&self) -> Seq<Instr> {
        self.instrs@
    }
}

impl Kernel {
    #[verifier::type_invariant]
    closed spec fn inv(&self) -> bool {
        wf(self.instrs@)
    }

    /// Builds a kernel from its instructions, refusing a sequence that is not
    /// well formed.
    pub fn from_instrs(instrs: Vec<Instr>) -> (r: Result<Kernel, Error>)
        ensures
            r is Ok <==> wf(instrs@),
            r matches Ok(k) ==> k@ == instrs@,
            r is Err ==> r matches Err(Error::InvalidKernel { .. }),
    {
        check_wf(&instrs)?;
        Ok(Kernel { instrs })
    }

    /// The instructions of the kernel.
    pub fn instrs(&self) -> (r: &Vec<Instr>)
        ensures
            r@ == self@,
            wf(r@),
    {
        proof {
            use_type_invariant(self);
        }
        &self.instrs
    }

    /// The number of instructions.
    pub fn len(&self) -> (r: usize)
        ensures
            r == self@.len(),
    {
        self.instrs.len()
    }

    /// Constant folding followed by dead-code elimination. Floating-point
    /// folds are answered by `feval`.
    pub fn optimize<F: Fn(FloatFold) -> Option<Const>>(self, feval: &F) -> (r: Result<Kernel, Error>)
        requires
            forall|q: FloatFold| call_requires(*feval, (q,)),
        ensures
            r is Ok,
            r matches Ok(k) ==> exists|m: Seq<Instr>|
                constant_folded(*feval, self@, m) && k@ == dce(m),
    {
        proof {
            use_type_invariant(&self);
        }
        let Kernel { mut instrs } = self;
        let ghost s0 = instrs@;
        proof {
            lemma_wf_fold_operands(s0);
        }
        constant_fold(&mut instrs, feval);
        let ghost m = instrs@;
        proof {
            law_fold_preserves_wf(*feval, s0, m);
            lemma_wf_in_bounds(m);
        }
        dead_code_elimination(&mut instrs);
        proof {
            law_dce_preserves_wf(m);
        }
        Ok(Kernel { instrs })
    }
}

/// Optimization keeps every root of a well-formed kernel in place and unchanged:
/// stores, assignments, definitions, block instructions, barriers and local
/// reductions.
pub proof fn law_optimize_keeps_roots<F: Fn(FloatFold) -> Option<Const>>(
    f: F,
    s: Seq<Instr>,
    m: Seq<Instr>,
    i: int,
)
    requires
        wf(s),
        constant_folded(f, s, m),
        0 <= i < s.len(),
        is_root(s[i]),
    ensures
        dce(m).len() == s.len(),
        dce(m)[i] == s[i],
{
    law_fold_rewrites_only_to_consts(f, s, m, i);
    law_fold_preserves_wf(f, s, m);
    assert(!is_foldable(s[i]));
    law_dce_keeps_roots(m, i);
}

} // verus!
