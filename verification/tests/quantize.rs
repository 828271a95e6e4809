use ug::lang::{Const, DType, Error, Instr, ReduceOp, UnaryOp, A, VarId, BinaryOp};
use ug::lazy::{LazyBuffer, LazyOp};
use ug::quantize::QuantType;
use ug::ssa::check_wf;

#[test]
fn quant_type_parameters() {
    assert_eq!(QuantType::Q8_0.block_size(), 32);
    assert_eq!(QuantType::Q4_0.block_size(), 32);
    assert_eq!(QuantType::Q8_0.bits(), 8);
    assert_eq!(QuantType::Q4_0.bits(), 4);
}

fn kernel_of(b: &LazyBuffer) -> Vec<Instr> {
    match b.op() {
        LazyOp::Ssa(k, _) => k.instrs().clone(),
        _ => panic!("not a kernel"),
    }
}

#[test]
fn dequantize_q8_kernel_shape() {
    let packed = LazyBuffer::input(vec![64], DType::I32);
    let scales = LazyBuffer::input(vec![2], DType::F32);
    let y = LazyBuffer::dequantize_q8(&packed, &scales, 64, 32).unwrap();
    assert_eq!(y.dims().to_vec(), vec![64]);
    assert_eq!(y.dtype(), DType::F32);
    let k = kernel_of(&y);
    assert_eq!(k.len(), 12);
    assert_eq!(k[4], Instr::Const(Const::I32(32)));
    assert_eq!(
        k[8],
        Instr::Unary { op: UnaryOp::Cast(DType::F32), arg: A::Var(VarId(7)), dtype: DType::F32 }
    );
    assert!(check_wf(&k).is_ok());
}

#[test]
fn dequantize_q4_kernel_shape() {
    let packed = LazyBuffer::input(vec![32], DType::I32);
    let scales = LazyBuffer::input(vec![2], DType::F32);
    let y = LazyBuffer::dequantize_q4(&packed, &scales, 64, 32).unwrap();
    assert_eq!(y.dims().to_vec(), vec![64]);
    let k = kernel_of(&y);
    assert_eq!(k.len(), 27);
    match &k[3] {
        Instr::Range { up: A::Const(Const::I32(u)), end_idx, .. } => {
            assert_eq!(*u, 32);
            assert_eq!(*end_idx, VarId(26));
        }
        _ => panic!(),
    }
    assert_eq!(k[4], Instr::Const(Const::I32(16)));
    assert_eq!(k[8], Instr::Const(Const::I32(16)));
    assert_eq!(
        k[15],
        Instr::Binary { op: BinaryOp::Div, lhs: A::Var(VarId(7)), rhs: A::Var(VarId(14)), dtype: DType::I32 }
    );
    assert!(check_wf(&k).is_ok());
}

#[test]
fn quantize_to_q8_not_divisible() {
    let x = LazyBuffer::input(vec![3, 5], DType::F32);
    assert!(matches!(
        x.quantize_to_q8(4),
        Err(Error::NotDivisible { num_elements: 15, group_size: 4 })
    ));
}

#[test]
fn quantize_to_q8_graph() {
    let x = LazyBuffer::input(vec![4, 16], DType::F32);
    let (q, s) = x.quantize_to_q8(32).unwrap();
    assert_eq!(q.dims().to_vec(), vec![64]);
    assert_eq!(q.dtype(), DType::I32);
    assert_eq!(s.dims().to_vec(), vec![2]);
    assert_eq!(s.dtype(), DType::F32);
    match s.op() {
        LazyOp::Reshape(m) => {
            assert_eq!(m.dims().to_vec(), vec![2, 1]);
            assert!(matches!(m.op(), LazyOp::Reduce(ReduceOp::Max, 1, _)));
        }
        _ => panic!(),
    }
    match q.op() {
        LazyOp::Reshape(c) => assert!(matches!(c.op(), LazyOp::Unary(UnaryOp::Cast(DType::I32), _))),
        _ => panic!(),
    }
}
