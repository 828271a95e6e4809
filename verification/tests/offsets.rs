use std::collections::HashMap;

use ug::lang::{BinaryOp, Const, DType, Instr, VarId, A};
use ug::lazy::{LazyBuffer, LazyOp};

fn kernel_of(b: &LazyBuffer) -> Vec<Instr> {
    match b.op() {
        LazyOp::Ssa(k, _) => k.instrs().clone(),
        _ => panic!("not a kernel"),
    }
}

/// Evaluates the `i32` index arithmetic of instruction `k`; loop indices and
/// loaded values come from `env`.
fn eval(s: &[Instr], env: &HashMap<usize, i32>, k: usize) -> Option<i32> {
    let operand = |a: &A| -> Option<i32> {
        match a {
            A::Const(Const::I32(c)) => Some(*c),
            A::Var(v) if v.0 < k => eval(s, env, v.0),
            _ => None,
        }
    };
    match &s[k] {
        Instr::Const(Const::I32(c)) => Some(*c),
        Instr::Binary { op, lhs, rhs, dtype: DType::I32 } => {
            let (x, y) = (operand(lhs)?, operand(rhs)?);
            match op {
                BinaryOp::Add => x.checked_add(y),
                BinaryOp::Sub => x.checked_sub(y),
                BinaryOp::Mul => x.checked_mul(y),
                BinaryOp::Div => x.checked_div(y),
                BinaryOp::Ge => Some((x >= y) as i32),
                BinaryOp::Lt => Some((x < y) as i32),
                _ => None,
            }
        }
        _ => env.get(&k).copied(),
    }
}

fn offset_var(i: &Instr) -> usize {
    match i {
        Instr::Load { offset: A::Var(v), .. } => v.0,
        Instr::Store { offset: A::Var(v), .. } => v.0,
        _ => panic!("not a memory access"),
    }
}

/// The global buffer a load reads or a store writes.
fn buffer_of(k: &[Instr], i: usize) -> usize {
    let v = match &k[i] {
        Instr::Load { src, .. } => src.0,
        Instr::Store { dst, .. } => dst.0,
        _ => panic!("not a memory access"),
    };
    match &k[v] {
        Instr::DefineGlobal { index, .. } => *index,
        _ => panic!("not a global buffer"),
    }
}

#[test]
fn cumsum_offsets_are_row_major() {
    let x = LazyBuffer::input(vec![2, 3, 4], DType::F32);
    let k = kernel_of(&x.cumsum(1).unwrap());
    let (load, store) = (offset_var(&k[10]), offset_var(&k[13]));
    assert_eq!(load, 9);
    assert_eq!(store, 9);
    for o in 0..2 {
        for a in 0..3 {
            for i in 0..4 {
                let env = HashMap::from([(2, o), (5, a), (3, i)]);
                assert_eq!(eval(&k, &env, load), Some(o * 12 + a * 4 + i));
            }
        }
    }
}

#[test]
fn argmax_offsets_are_row_major() {
    let x = LazyBuffer::input(vec![2, 5, 3], DType::F32);
    let k = kernel_of(&x.argmax(1).unwrap());
    let (load, store) = (offset_var(&k[11]), offset_var(&k[20]));
    for o in 0..2 {
        for a in 0..5 {
            for i in 0..3 {
                let env = HashMap::from([(2, o), (6, a), (3, i)]);
                assert_eq!(eval(&k, &env, load), Some(o * 15 + a * 3 + i));
                assert_eq!(eval(&k, &env, store), Some(o * 3 + i));
            }
        }
    }
}

#[test]
fn pad_offsets_and_condition() {
    let x = LazyBuffer::input(vec![2, 3], DType::F32);
    let k = kernel_of(&x.pad(1, 2, 1, Const::F32(0)).unwrap());
    let (load, store) = (offset_var(&k[20]), offset_var(&k[24]));
    for o in 0..2 {
        for d in 0..6 {
            let env = HashMap::from([(2, o), (3, d), (4, 0)]);
            assert_eq!(eval(&k, &env, store), Some(o * 6 + d));
            let inside = (2..5).contains(&d);
            assert_eq!(eval(&k, &env, 14), Some(inside as i32));
            if inside {
                assert_eq!(eval(&k, &env, load), Some(o * 3 + d - 2));
            }
        }
    }
}

#[test]
fn gather_offsets_replace_the_indexed_coordinate() {
    let src = LazyBuffer::input(vec![3, 4], DType::F32);
    let idx = LazyBuffer::input(vec![2, 4], DType::I32);
    let k = kernel_of(&src.gather(&idx, 0).unwrap());
    let load = offset_var(&k[k.len() - 3]);
    assert_eq!(buffer_of(&k, k.len() - 3), 0);
    assert_eq!(buffer_of(&k, k.len() - 2), 2);
    assert_eq!(buffer_of(&k, 4), 1);
    assert_eq!(k[k.len() - 2], Instr::Store { dst: VarId(2), offset: A::Var(VarId(3)), value: A::Var(VarId(k.len() - 3)), dtype: DType::F32 });
    for r in 0..8 {
        for v in 0..3 {
            let env = HashMap::from([(3, r), (4, v)]);
            // coordinates of r in [2, 4] are (r / 4, r % 4); row replaced by v.
            assert_eq!(eval(&k, &env, load), Some(v * 4 + r % 4));
        }
    }
}

#[test]
fn scatter_offsets_replace_the_indexed_coordinate() {
    let dst = LazyBuffer::input(vec![3, 5], DType::F32);
    let idx = LazyBuffer::input(vec![3, 2], DType::I32);
    let vals = LazyBuffer::input(vec![3, 2], DType::F32);
    let k = kernel_of(&dst.scatter(&idx, &vals, 1).unwrap());
    let store = offset_var(&k[k.len() - 2]);
    assert_eq!(buffer_of(&k, k.len() - 2), 3);
    assert_eq!(buffer_of(&k, 9), 1);
    assert_eq!(buffer_of(&k, 10), 2);
    assert_eq!(buffer_of(&k, 5), 0);
    assert_eq!(buffer_of(&k, 6), 3);
    for r in 0..6 {
        for v in 0..5 {
            let env = HashMap::from([(8, r), (9, v)]);
            // coordinates of r in [3, 2] are (r / 2, r % 2); column replaced by v.
            assert_eq!(eval(&k, &env, store), Some((r / 2) * 5 + v));
        }
    }
}
