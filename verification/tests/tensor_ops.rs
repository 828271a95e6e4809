use ug::lang::{BinaryOp, Const, DType, Error, Instr, ReduceOp, VarId, A};
use ug::lazy::{LazyBuffer, LazyOp};
use ug::ssa::check_wf;

fn input(dims: &[usize], dtype: DType) -> LazyBuffer {
    LazyBuffer::input(dims.to_vec(), dtype)
}

fn kernel_of(b: &LazyBuffer) -> Vec<Instr> {
    match b.op() {
        LazyOp::Ssa(k, _) => k.instrs().clone(),
        _ => panic!("not a kernel"),
    }
}

fn n_args(b: &LazyBuffer) -> usize {
    match b.op() {
        LazyOp::Ssa(_, args) => args.len(),
        _ => panic!("not a kernel"),
    }
}

fn range_up(i: &Instr) -> i32 {
    match i {
        Instr::Range { up: A::Const(Const::I32(u)), .. } => *u,
        _ => panic!("not a range"),
    }
}

#[test]
fn cumsum_shape_and_kernel() {
    let x = input(&[2, 3, 4], DType::F32);
    let y = x.cumsum(1).unwrap();
    assert_eq!(y.dims().to_vec(), vec![2, 3, 4]);
    assert_eq!(y.dtype(), DType::F32);
    let k = kernel_of(&y);
    assert_eq!(k.len(), 17);
    assert_eq!(range_up(&k[2]), 2); // outer
    assert_eq!(range_up(&k[3]), 4); // inner
    assert_eq!(range_up(&k[5]), 3); // axis
    assert_eq!(k[4], Instr::DefineAcc(Const::F32(0)));
    assert_eq!(
        k[6],
        Instr::Binary {
            op: BinaryOp::Mul,
            lhs: A::Var(VarId(2)),
            rhs: A::Const(Const::I32(12)),
            dtype: DType::I32
        }
    );
    assert!(matches!(k[11], Instr::Binary { op: BinaryOp::Add, .. }));
    assert!(check_wf(&k).is_ok());
    assert_eq!(n_args(&y), 1);
}

#[test]
fn cumsum_dim_out_of_range() {
    let x = input(&[2, 3], DType::F32);
    assert!(matches!(x.cumsum(2), Err(Error::DimOutOfRange { dim: 2, rank: 2 })));
}

#[test]
fn cumprod_initial_values() {
    let x = input(&[5], DType::I64);
    let k = kernel_of(&x.cumprod(0).unwrap());
    assert_eq!(k[4], Instr::DefineAcc(Const::I64(1)));
    assert!(matches!(k[11], Instr::Binary { op: BinaryOp::Mul, .. }));
    let f = input(&[5], DType::F32);
    let k = kernel_of(&f.cumprod(0).unwrap());
    assert_eq!(k[4], Instr::DefineAcc(Const::F32(1.0f32.to_bits())));
    let h = input(&[5], DType::F16);
    assert!(matches!(h.cumprod(0), Err(Error::UnsupportedDType(DType::F16))));
    assert!(matches!(h.cumprod(3), Err(Error::DimOutOfRange { dim: 3, rank: 1 })));
}

#[test]
fn argmax_keeps_dim_with_size_one() {
    let x = input(&[2, 5, 3], DType::F32);
    let y = x.argmax(1).unwrap();
    assert_eq!(y.dims().to_vec(), vec![2, 1, 3]);
    assert_eq!(y.dtype(), DType::I32);
    let k = kernel_of(&y);
    assert_eq!(k.len(), 23);
    assert_eq!(k[4], Instr::DefineAcc(Const::F32(f32::NEG_INFINITY.to_bits())));
    assert_eq!(range_up(&k[6]), 5);
    assert!(check_wf(&k).is_ok());
    let i = input(&[4], DType::I32);
    let k = kernel_of(&i.argmax(0).unwrap());
    assert_eq!(k[4], Instr::DefineAcc(Const::I32(i32::MIN)));
}

#[test]
fn gather_errors_and_shape() {
    let src = input(&[4, 5], DType::F32);
    let idx3 = input(&[4, 5, 1], DType::I32);
    assert!(matches!(src.gather(&idx3, 0), Err(Error::RankMismatch { lhs: 2, rhs: 3 })));
    let idx = input(&[4, 2], DType::I32);
    assert!(matches!(src.gather(&idx, 2), Err(Error::DimOutOfRange { dim: 2, rank: 2 })));
    let y = src.gather(&idx, 1).unwrap();
    assert_eq!(y.dims().to_vec(), vec![4, 2]);
    let k = kernel_of(&y);
    // 6 set-up instructions, 7 * 2 - 4 for the offset, load, store, end.
    assert_eq!(k.len(), 7 * 2 + 5);
    assert_eq!(range_up(&k[3]), 8);
    // The stride of the index tensor's first dimension is 2, of the source's 5.
    assert_eq!(k[6], Instr::Const(Const::I32(2)));
    assert_eq!(k[10], Instr::Const(Const::I32(5)));
    // Along the gathered dimension the loaded index (instruction 4) is used.
    assert_eq!(k[13], Instr::Const(Const::I32(1)));
    assert_eq!(
        k[14],
        Instr::Binary {
            op: BinaryOp::Mul,
            lhs: A::Var(VarId(4)),
            rhs: A::Var(VarId(13)),
            dtype: DType::I32
        }
    );
    assert!(check_wf(&k).is_ok());
    assert_eq!(n_args(&y), 2);
}

#[test]
fn scatter_errors_and_shape() {
    let dst = input(&[3, 4], DType::F32);
    let idx = input(&[3, 2], DType::I32);
    let vals = input(&[3, 1], DType::F32);
    assert!(matches!(dst.scatter(&idx, &vals, 1), Err(Error::ShapeMismatch)));
    let vals = input(&[3, 2], DType::F32);
    assert!(matches!(dst.scatter(&idx, &vals, 5), Err(Error::DimOutOfRange { dim: 5, rank: 2 })));
    let y = dst.scatter(&idx, &vals, 1).unwrap();
    assert_eq!(y.dims().to_vec(), vec![3, 4]);
    let k = kernel_of(&y);
    assert_eq!(k.len(), 12 + 7 * 2 - 4 + 2);
    assert_eq!(range_up(&k[4]), 12);
    assert_eq!(range_up(&k[8]), 6);
    assert!(check_wf(&k).is_ok());
    assert_eq!(n_args(&y), 3);
}

#[test]
fn scatter_with_scalar_indices() {
    let dst = input(&[3], DType::F32);
    let idx = input(&[], DType::I32);
    let vals = input(&[], DType::F32);
    let y = dst.scatter(&idx, &vals, 0).unwrap();
    let k = kernel_of(&y);
    assert_eq!(k.len(), 14);
    assert_eq!(
        k[12],
        Instr::Store { dst: VarId(3), offset: A::Var(VarId(11)), value: A::Var(VarId(10)), dtype: DType::F32 }
    );
}

#[test]
fn pad_shape_and_kernel() {
    let x = input(&[2, 3], DType::F32);
    let y = x.pad(1, 1, 2, Const::F32(0)).unwrap();
    assert_eq!(y.dims().to_vec(), vec![2, 6]);
    let k = kernel_of(&y);
    assert_eq!(k.len(), 28);
    assert_eq!(range_up(&k[3]), 6);
    assert_eq!(k[10], Instr::Const(Const::I32(1)));
    assert_eq!(k[11], Instr::Const(Const::I32(4)));
    assert_eq!(k[21], Instr::Const(Const::F32(0)));
    assert!(check_wf(&k).is_ok());
    assert!(matches!(x.pad(2, 1, 1, Const::F32(0)), Err(Error::DimOutOfRange { dim: 2, rank: 2 })));
}

#[test]
fn topk_errors() {
    let x = input(&[2, 3], DType::F32);
    assert!(matches!(x.topk(2, 1), Err(Error::DimOutOfRange { dim: 2, rank: 2 })));
    assert!(matches!(x.topk(1, 4), Err(Error::KTooLarge { k: 4, len: 3 })));
}

#[test]
fn topk_one_is_the_maximum() {
    let x = input(&[2, 3], DType::F32);
    let y = x.topk(1, 1).unwrap();
    assert_eq!(y.dims().to_vec(), vec![2, 1]);
    assert!(matches!(y.op(), LazyOp::Reduce(ReduceOp::Max, 1, _)));
}

#[test]
fn topk_concatenates_successive_maxima() {
    let x = input(&[2, 3], DType::F32);
    let y = x.topk(1, 3).unwrap();
    assert_eq!(y.dims().to_vec(), vec![2, 3]);
    match y.op() {
        LazyOp::Cat(parts, 1) => {
            assert_eq!(parts.len(), 3);
            for p in parts {
                assert_eq!(p.dims().to_vec(), vec![2, 1]);
                assert!(matches!(p.op(), LazyOp::Reduce(ReduceOp::Max, 1, _)));
            }
            match parts[1].op() {
                LazyOp::Reduce(_, _, src) => assert!(matches!(src.op(), LazyOp::Where(..))),
                _ => panic!(),
            }
        }
        _ => panic!("expected a concatenation"),
    }
    let z = x.topk(1, 0).unwrap();
    assert_eq!(z.dims().to_vec(), vec![2, 1]);
}

#[test]
fn reduce_dims_cases() {
    let x = input(&[2, 3, 4], DType::F32);
    let same = x.reduce_dims(ReduceOp::Sum, &[]).unwrap();
    assert!(matches!(same.op(), LazyOp::Input));
    assert_eq!(same.dims().to_vec(), vec![2, 3, 4]);
    assert!(matches!(
        x.reduce_dims(ReduceOp::Sum, &[0, 7, 5, 1]),
        Err(Error::DimOutOfRange { dim: 5, rank: 3 })
    ));
    let y = x.reduce_dims(ReduceOp::Max, &[2, 0, 2]).unwrap();
    assert_eq!(y.dims().to_vec(), vec![1, 3, 1]);
    // The smallest dimension is reduced last.
    match y.op() {
        LazyOp::Reduce(ReduceOp::Max, 0, inner) => {
            assert!(matches!(inner.op(), LazyOp::Reduce(ReduceOp::Max, 2, _)))
        }
        _ => panic!(),
    }
}

#[test]
fn lazy_building_blocks() {
    let x = input(&[2, 3], DType::F32);
    assert!(matches!(x.reshape(vec![4]), Err(Error::ShapeMismatch)));
    assert_eq!(x.reshape(vec![3, 2]).unwrap().dims().to_vec(), vec![3, 2]);
    assert!(matches!(x.broadcast(vec![3]), Err(Error::BroadcastMismatch)));
    assert!(x.broadcast(vec![5, 2, 3]).is_ok());
    let row = input(&[1, 3], DType::F32);
    assert!(row.broadcast(vec![4, 3]).is_ok());
    assert!(matches!(x.binary(BinaryOp::Add, row.clone()), Err(Error::ShapeMismatch)));
    let s = LazyBuffer::cst(Const::I32(3));
    assert!(s.dims().is_empty());
    assert_eq!(s.dtype(), DType::I32);
    assert!(matches!(LazyBuffer::cat(&[], 0), Err(Error::EmptyInput)));
    let a = input(&[2, 3], DType::F32);
    let b = input(&[2, 5], DType::F32);
    assert_eq!(LazyBuffer::cat(&[&a, &b], 1).unwrap().dims().to_vec(), vec![2, 8]);
    assert!(matches!(LazyBuffer::cat(&[&a, &b], 0), Err(Error::ShapeMismatch)));
    assert!(matches!(LazyBuffer::cat(&[&a, &b], 2), Err(Error::DimOutOfRange { dim: 2, rank: 2 })));
}

#[test]
fn clone_shares_the_node() {
    let x = input(&[2, 3], DType::F32);
    let y = x.cumsum(1).unwrap();
    let z = y.clone();
    assert_eq!(z.dims().to_vec(), vec![2, 3]);
    assert_eq!(z.dtype(), DType::F32);
    assert_eq!(kernel_of(&z), kernel_of(&y));
    assert_eq!(n_args(&z), 1);
}

#[test]
fn reduce_dims_depends_on_the_set_only() {
    let x = input(&[2, 3, 4], DType::F32);
    let a = x.reduce_dims(ReduceOp::Sum, &[2, 0, 2]).unwrap();
    let b = x.reduce_dims(ReduceOp::Sum, &[0, 2]).unwrap();
    assert_eq!(a.dims().to_vec(), b.dims().to_vec());
    assert_eq!(a.dtype(), b.dtype());
    let chain = |t: &LazyBuffer| -> Vec<(usize, Vec<usize>)> {
        let mut out = vec![];
        let mut cur = t.clone();
        loop {
            let next = match cur.op() {
                LazyOp::Reduce(ReduceOp::Sum, d, inner) => {
                    out.push((*d, cur.dims().to_vec()));
                    inner.clone()
                }
                LazyOp::Input => break,
                _ => panic!("unexpected operation"),
            };
            cur = next;
        }
        out
    };
    assert_eq!(chain(&a), chain(&b));
    assert_eq!(chain(&a), vec![(0, vec![1, 3, 1]), (2, vec![2, 3, 1])]);
}
