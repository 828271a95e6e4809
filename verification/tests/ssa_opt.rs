use ug::dce::dead_code_elimination;
use ug::fold::{constant_fold, fold_binary, fold_unary, FloatFold};
use ug::kernel::Kernel;
use ug::lang::{BinaryOp, Const, DType, Error, Instr, ReduceOp, UnaryOp, VarId, A};
use ug::ssa::check_wf;

fn f32_eval(q: FloatFold) -> Option<Const> {
    let out = match q {
        FloatFold::Binary(op, Const::F32(a), Const::F32(b)) => {
            let (l, r) = (f32::from_bits(a), f32::from_bits(b));
            let cmp = |c: bool| Some(Const::I32(if c { 1 } else { 0 }));
            let v = match op {
                BinaryOp::Add => l + r,
                BinaryOp::Sub => l - r,
                BinaryOp::Mul => l * r,
                BinaryOp::Div => l / r,
                BinaryOp::Mod => l % r,
                BinaryOp::Min => l.min(r),
                BinaryOp::Max => l.max(r),
                BinaryOp::Eq => return cmp(l == r),
                BinaryOp::Ne => return cmp(l != r),
                BinaryOp::Lt => return cmp(l < r),
                BinaryOp::Le => return cmp(l <= r),
                BinaryOp::Gt => return cmp(l > r),
                BinaryOp::Ge => return cmp(l >= r),
            };
            Some(Const::F32(v.to_bits()))
        }
        FloatFold::Unary(op, Const::F32(a)) => {
            let v = f32::from_bits(a);
            let r = match op {
                UnaryOp::Neg => -v,
                UnaryOp::Exp => v.exp(),
                UnaryOp::Sin => v.sin(),
                UnaryOp::Cos => v.cos(),
                UnaryOp::Sqrt => v.sqrt(),
                UnaryOp::Id => v,
                UnaryOp::Cast(DType::I32) => return Some(Const::I32(v as i32)),
                UnaryOp::Cast(DType::I64) => return Some(Const::I64(v as i64)),
                UnaryOp::Cast(_) => return None,
            };
            Some(Const::F32(r.to_bits()))
        }
        FloatFold::Unary(UnaryOp::Cast(DType::F32), Const::I32(v)) => {
            Some(Const::F32((v as f32).to_bits()))
        }
        _ => None,
    };
    out
}

fn v(i: usize) -> A {
    A::Var(VarId(i))
}

fn c32(x: i32) -> Instr {
    Instr::Const(Const::I32(x))
}

fn bin(op: BinaryOp, l: A, r: A) -> Instr {
    Instr::Binary { op, lhs: l, rhs: r, dtype: DType::I32 }
}

#[test]
fn fold_chain_of_integer_ops() {
    let mut instrs = vec![
        c32(2),
        c32(3),
        bin(BinaryOp::Add, v(0), v(1)),
        bin(BinaryOp::Mul, v(2), A::Const(Const::I32(4))),
    ];
    constant_fold(&mut instrs, &f32_eval);
    assert_eq!(instrs[2], c32(5));
    assert_eq!(instrs[3], c32(20));
    assert_eq!(instrs[0], c32(2));
}

#[test]
fn fold_binary_checked_arithmetic() {
    let f = &f32_eval;
    assert_eq!(fold_binary(BinaryOp::Add, Const::I32(i32::MAX), Const::I32(1), f), None);
    assert_eq!(fold_binary(BinaryOp::Sub, Const::I32(i32::MIN), Const::I32(1), f), None);
    assert_eq!(fold_binary(BinaryOp::Mul, Const::I32(1 << 20), Const::I32(1 << 20), f), None);
    assert_eq!(fold_binary(BinaryOp::Div, Const::I32(7), Const::I32(0), f), None);
    assert_eq!(fold_binary(BinaryOp::Div, Const::I32(i32::MIN), Const::I32(-1), f), None);
    assert_eq!(fold_binary(BinaryOp::Mod, Const::I32(7), Const::I32(0), f), None);
    assert_eq!(fold_binary(BinaryOp::Div, Const::I32(-7), Const::I32(2), f), Some(Const::I32(-3)));
    assert_eq!(fold_binary(BinaryOp::Mod, Const::I32(-7), Const::I32(2), f), Some(Const::I32(-1)));
    assert_eq!(fold_binary(BinaryOp::Min, Const::I32(-7), Const::I32(2), f), Some(Const::I32(-7)));
    assert_eq!(fold_binary(BinaryOp::Max, Const::I32(-7), Const::I32(2), f), Some(Const::I32(2)));
}

#[test]
fn fold_binary_comparisons() {
    let f = &f32_eval;
    assert_eq!(fold_binary(BinaryOp::Eq, Const::I32(3), Const::I32(3), f), Some(Const::I32(1)));
    assert_eq!(fold_binary(BinaryOp::Ne, Const::I32(3), Const::I32(3), f), Some(Const::I32(0)));
    assert_eq!(fold_binary(BinaryOp::Lt, Const::I32(2), Const::I32(3), f), Some(Const::I32(1)));
    assert_eq!(fold_binary(BinaryOp::Le, Const::I32(4), Const::I32(3), f), Some(Const::I32(0)));
    assert_eq!(fold_binary(BinaryOp::Gt, Const::I32(4), Const::I32(3), f), Some(Const::I32(1)));
    assert_eq!(fold_binary(BinaryOp::Ge, Const::I32(2), Const::I32(3), f), Some(Const::I32(0)));
}

#[test]
fn fold_mixed_types_does_nothing() {
    let f = &f32_eval;
    assert_eq!(fold_binary(BinaryOp::Add, Const::I32(1), Const::I64(1), f), None);
    assert_eq!(fold_binary(BinaryOp::Add, Const::I64(1), Const::I64(1), f), None);
    assert_eq!(fold_unary(UnaryOp::Neg, Const::I64(1), f), None);
    assert_eq!(fold_unary(UnaryOp::Exp, Const::I32(1), f), None);
}

#[test]
fn fold_unary_integers() {
    let f = &f32_eval;
    assert_eq!(fold_unary(UnaryOp::Neg, Const::I32(5), f), Some(Const::I32(-5)));
    assert_eq!(fold_unary(UnaryOp::Neg, Const::I32(i32::MIN), f), Some(Const::I32(i32::MIN)));
    assert_eq!(fold_unary(UnaryOp::Id, Const::I32(5), f), Some(Const::I32(5)));
    assert_eq!(fold_unary(UnaryOp::Cast(DType::I64), Const::I32(-5), f), Some(Const::I64(-5)));
    assert_eq!(fold_unary(UnaryOp::Cast(DType::F16), Const::I32(-5), f), None);
}

#[test]
fn fold_floats_through_evaluator() {
    let f = &f32_eval;
    let one = Const::F32(1.0f32.to_bits());
    let two = Const::F32(2.0f32.to_bits());
    assert_eq!(fold_binary(BinaryOp::Add, one, two, f), Some(Const::F32(3.0f32.to_bits())));
    assert_eq!(fold_binary(BinaryOp::Lt, one, two, f), Some(Const::I32(1)));
    assert_eq!(fold_unary(UnaryOp::Neg, two, f), Some(Const::F32((-2.0f32).to_bits())));
    assert_eq!(fold_unary(UnaryOp::Cast(DType::I32), two, f), Some(Const::I32(2)));
    assert_eq!(
        fold_unary(UnaryOp::Cast(DType::F32), Const::I32(3), f),
        Some(Const::F32(3.0f32.to_bits()))
    );
    // An evaluator that declines leaves the instruction in place.
    let none = |_: FloatFold| None;
    assert_eq!(fold_binary(BinaryOp::Add, one, two, &none), None);
}

#[test]
fn fold_keeps_non_constant_operands() {
    let mut instrs = vec![
        Instr::DefineGlobal { index: 0, dtype: DType::I32 },
        Instr::Load { src: VarId(0), offset: A::Const(Const::I32(0)), dtype: DType::I32 },
        c32(1),
        bin(BinaryOp::Add, v(1), v(2)),
    ];
    let before = instrs.clone();
    constant_fold(&mut instrs, &f32_eval);
    assert_eq!(instrs, before);
}

#[test]
fn fold_twice_is_fold_once() {
    let mut instrs = vec![
        c32(6),
        c32(7),
        bin(BinaryOp::Mul, v(0), v(1)),
        bin(BinaryOp::Sub, v(2), A::Const(Const::I32(2))),
        bin(BinaryOp::Div, v(3), A::Const(Const::I32(0))),
    ];
    constant_fold(&mut instrs, &f32_eval);
    let once = instrs.clone();
    assert_eq!(once[3], c32(40));
    assert_eq!(once[4], bin(BinaryOp::Div, v(3), A::Const(Const::I32(0))));
    constant_fold(&mut instrs, &f32_eval);
    assert_eq!(instrs, once);
}

fn sample_kernel() -> Vec<Instr> {
    vec![
        Instr::DefineGlobal { index: 0, dtype: DType::I32 }, // 0
        Instr::Range {
            lo: A::Const(Const::I32(0)),
            up: A::Const(Const::I32(4)),
            step: 1,
            end_idx: VarId(6),
        }, // 1
        c32(10),                              // 2: dead
        bin(BinaryOp::Add, v(2), v(2)),       // 3: dead
        c32(3),                               // 4: read by the store
        bin(BinaryOp::Mul, v(1), v(4)),       // 5: read by the store
        Instr::EndRange { start_idx: VarId(1) }, // 6
        Instr::Store { dst: VarId(0), offset: v(1), value: v(5), dtype: DType::I32 }, // 7
    ]
}

#[test]
fn dce_removes_unused_values() {
    let mut instrs = sample_kernel();
    dead_code_elimination(&mut instrs);
    let orig = sample_kernel();
    assert_eq!(instrs.len(), orig.len());
    assert_eq!(instrs[2], c32(0));
    assert_eq!(instrs[3], c32(0));
    for i in [0usize, 1, 4, 5, 6, 7] {
        assert_eq!(instrs[i], orig[i]);
    }
}

#[test]
fn dce_twice_is_dce_once() {
    let mut instrs = sample_kernel();
    dead_code_elimination(&mut instrs);
    let once = instrs.clone();
    dead_code_elimination(&mut instrs);
    assert_eq!(instrs, once);
}

#[test]
fn dce_keeps_every_root() {
    let mut instrs = vec![
        Instr::DefineGlobal { index: 0, dtype: DType::F32 },
        Instr::DefineLocal { size: 4, dtype: DType::F32 },
        Instr::DefineAcc(Const::I32(0)),
        Instr::Special(ug::lang::Special::LocalIdx),
        Instr::Barrier,
        c32(1),
        Instr::If { cond: v(5), end_idx: VarId(7) },
        Instr::EndIf,
        Instr::ReduceLocal { op: ReduceOp::Sum, arg: v(2) },
        Instr::Assign { dst: VarId(2), src: A::Const(Const::I32(1)) },
    ];
    let before = instrs.clone();
    dead_code_elimination(&mut instrs);
    assert_eq!(instrs, before);
}

#[test]
fn check_wf_reports_first_bad_instruction() {
    let forward = vec![c32(1), bin(BinaryOp::Add, v(0), v(2)), c32(2)];
    assert_eq!(check_wf(&forward), Err(Error::InvalidKernel { index: 1 }));
    let bad_link = vec![
        c32(1),
        Instr::Range {
            lo: A::Const(Const::I32(0)),
            up: A::Const(Const::I32(4)),
            step: 1,
            end_idx: VarId(0),
        },
    ];
    assert_eq!(check_wf(&bad_link), Err(Error::InvalidKernel { index: 1 }));
    assert_eq!(check_wf(&sample_kernel()), Ok(()));
    assert!(matches!(Kernel::from_instrs(forward), Err(Error::InvalidKernel { index: 1 })));
}

#[test]
fn optimize_folds_then_removes() {
    let k = Kernel::from_instrs(sample_kernel()).unwrap();
    let k = k.optimize(&f32_eval).unwrap();
    let instrs = k.instrs();
    assert_eq!(instrs.len(), 8);
    // 2 and 3 are dead; 4 is constant and no longer read once 5 is... not
    // folded (it reads the range variable), so it stays.
    assert_eq!(instrs[2], c32(0));
    assert_eq!(instrs[3], c32(0));
    assert_eq!(instrs[4], c32(3));
    assert_eq!(instrs[5], bin(BinaryOp::Mul, v(1), v(4)));
    assert!(check_wf(instrs).is_ok());
}

#[test]
fn optimize_folds_stored_value() {
    let instrs = vec![
        Instr::DefineGlobal { index: 0, dtype: DType::I32 },
        c32(2),
        c32(5),
        bin(BinaryOp::Mul, v(1), v(2)),
        Instr::Store { dst: VarId(0), offset: A::Const(Const::I32(0)), value: v(3), dtype: DType::I32 },
    ];
    let k = Kernel::from_instrs(instrs).unwrap().optimize(&f32_eval).unwrap();
    let out = k.instrs();
    assert_eq!(out[3], c32(10));
    // The operands of the folded product are no longer read.
    assert_eq!(out[1], c32(0));
    assert_eq!(out[2], c32(0));
}

#[test]
fn dce_twice_on_forward_references() {
    // Instruction 0 reads instruction 2, which comes after it; a store reads 0.
    let kernel = vec![
        bin(BinaryOp::Add, v(2), v(2)),
        Instr::DefineGlobal { index: 0, dtype: DType::I32 },
        c32(4),
        c32(9),
        Instr::Store { dst: VarId(1), offset: A::Const(Const::I32(0)), value: v(0), dtype: DType::I32 },
        Instr::Range { lo: A::Const(Const::I32(0)), up: A::Const(Const::I32(1)), step: 1, end_idx: VarId(3) },
    ];
    let mut instrs = kernel.clone();
    dead_code_elimination(&mut instrs);
    let once = instrs.clone();
    assert_eq!(once[4], kernel[4]);
    assert_eq!(once[5], kernel[5]);
    dead_code_elimination(&mut instrs);
    assert_eq!(instrs, once);
}

#[test]
fn fold_twice_with_partners_that_are_not_roots() {
    let mut instrs = vec![
        c32(5),
        Instr::Range { lo: A::Const(Const::I32(0)), up: v(0), step: 1, end_idx: VarId(0) },
        Instr::EndRange { start_idx: VarId(1) },
        bin(BinaryOp::Add, v(0), v(0)),
        Instr::Unary { op: UnaryOp::Neg, arg: v(3), dtype: DType::I32 },
    ];
    constant_fold(&mut instrs, &f32_eval);
    let once = instrs.clone();
    assert_eq!(once[3], c32(10));
    assert_eq!(once[4], c32(-10));
    constant_fold(&mut instrs, &f32_eval);
    assert_eq!(instrs, once);
}
