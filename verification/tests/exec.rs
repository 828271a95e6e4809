use std::collections::HashMap;

use ug::lang::{BinaryOp, Const, DType, Instr, A};
use ug::lazy::{LazyBuffer, LazyOp};

fn kernel_of(b: &LazyBuffer) -> Vec<Instr> {
    match b.op() {
        LazyOp::Ssa(k, _) => k.instrs().clone(),
        _ => panic!("not a kernel"),
    }
}

/// Runs an `i32` kernel on global buffers given by index.
struct Machine<'a> {
    k: &'a [Instr],
    vals: HashMap<usize, i32>,
    bufs: Vec<Vec<i32>>,
}

impl<'a> Machine<'a> {
    fn read(&self, a: &A) -> i32 {
        match a {
            A::Const(Const::I32(c)) => *c,
            A::Var(v) => self.vals[&v.0],
            _ => panic!("not an i32 operand"),
        }
    }

    fn buffer(&self, v: usize) -> usize {
        match &self.k[v] {
            Instr::DefineGlobal { index, .. } => *index,
            _ => panic!("not a buffer"),
        }
    }

    fn run(&mut self, mut pc: usize, stop: usize) {
        while pc < stop {
            match &self.k[pc] {
                Instr::Range { lo, up, end_idx, .. } => {
                    let (lo, up) = (self.read(lo), self.read(up));
                    for idx in lo..up {
                        self.vals.insert(pc, idx);
                        self.run(pc + 1, end_idx.0);
                    }
                    pc = end_idx.0 + 1;
                    continue;
                }
                Instr::DefineGlobal { .. } => {}
                Instr::Const(Const::I32(c)) | Instr::DefineAcc(Const::I32(c)) => {
                    self.vals.insert(pc, *c);
                }
                Instr::Binary { op, lhs, rhs, dtype: DType::I32 } => {
                    let (x, y) = (self.read(lhs), self.read(rhs));
                    let z = match op {
                        BinaryOp::Add => x.checked_add(y).unwrap(),
                        BinaryOp::Sub => x.checked_sub(y).unwrap(),
                        BinaryOp::Mul => x.checked_mul(y).unwrap(),
                        BinaryOp::Div => x.checked_div(y).unwrap(),
                        BinaryOp::Mod => x.checked_rem(y).unwrap(),
                        BinaryOp::Gt => (x > y) as i32,
                        BinaryOp::Ge => (x >= y) as i32,
                        BinaryOp::Lt => (x < y) as i32,
                        _ => panic!("unexpected operation"),
                    };
                    self.vals.insert(pc, z);
                }
                Instr::Where { cond, on_true, on_false, .. } => {
                    let v = if self.read(cond) != 0 { self.read(on_true) } else { self.read(on_false) };
                    self.vals.insert(pc, v);
                }
                Instr::Assign { dst, src } => {
                    let v = self.read(src);
                    self.vals.insert(dst.0, v);
                }
                Instr::Load { src, offset, .. } => {
                    let (b, o) = (self.buffer(src.0), self.read(offset) as usize);
                    let v = self.bufs[b][o];
                    self.vals.insert(pc, v);
                }
                Instr::Store { dst, offset, value, .. } => {
                    let (b, o, v) = (self.buffer(dst.0), self.read(offset) as usize, self.read(value));
                    self.bufs[b][o] = v;
                }
                other => panic!("unexpected instruction {other:?}"),
            }
            pc += 1;
        }
    }
}

fn run_kernel(k: &[Instr], bufs: Vec<Vec<i32>>) -> Vec<Vec<i32>> {
    let mut m = Machine { k, vals: HashMap::new(), bufs };
    m.run(0, k.len());
    m.bufs
}

#[test]
fn cumsum_runs_prefix_sums() {
    let x = LazyBuffer::input(vec![3], DType::I32);
    let k = kernel_of(&x.cumsum(0).unwrap());
    let out = run_kernel(&k, vec![vec![1, 2, 3], vec![0; 3]]);
    assert_eq!(out[1], vec![1, 3, 6]);
    assert_eq!(out[0], vec![1, 2, 3]);
}

#[test]
fn cumsum_along_the_middle_axis() {
    let x = LazyBuffer::input(vec![2, 3, 2], DType::I32);
    let k = kernel_of(&x.cumsum(1).unwrap());
    let src: Vec<i32> = (1..=12).collect();
    let out = run_kernel(&k, vec![src, vec![0; 12]]);
    assert_eq!(out[1], vec![1, 2, 4, 6, 9, 12, 7, 8, 16, 18, 27, 30]);
}

#[test]
fn cumprod_runs_prefix_products() {
    let x = LazyBuffer::input(vec![4], DType::I32);
    let k = kernel_of(&x.cumprod(0).unwrap());
    let out = run_kernel(&k, vec![vec![1, 2, 3, 4], vec![0; 4]]);
    assert_eq!(out[1], vec![1, 2, 6, 24]);
}

#[test]
fn argmax_takes_the_first_maximum() {
    let x = LazyBuffer::input(vec![4], DType::I32);
    let k = kernel_of(&x.argmax(0).unwrap());
    let out = run_kernel(&k, vec![vec![1, 3, 3, 2], vec![-1]]);
    assert_eq!(out[1], vec![1]);
    let y = LazyBuffer::input(vec![2, 3], DType::I32);
    let k = kernel_of(&y.argmax(1).unwrap());
    let out = run_kernel(&k, vec![vec![5, 5, 1, i32::MIN, i32::MIN, i32::MIN], vec![-1, -1]]);
    assert_eq!(out[1], vec![0, 0]);
}

#[test]
fn gather_reads_back_what_scatter_wrote() {
    let dst = LazyBuffer::input(vec![3, 4], DType::I32);
    let idx = LazyBuffer::input(vec![2, 4], DType::I32);
    let vals = LazyBuffer::input(vec![2, 4], DType::I32);
    let scatter = kernel_of(&dst.scatter(&idx, &vals, 0).unwrap());
    let indices = vec![2, 0, 1, 2, 0, 2, 0, 1];
    let values: Vec<i32> = (10..18).collect();
    let base: Vec<i32> = (0..12).map(|v| -v).collect();
    let out = run_kernel(&scatter, vec![base.clone(), indices.clone(), values.clone(), vec![0; 12]]);
    assert_eq!(out[3][2 * 4], 10);
    assert_eq!(out[3][1 * 4 + 2], 12);
    assert_eq!(out[3][1 * 4 + 0], -4);
    let gather = kernel_of(&dst.gather(&idx, 0).unwrap());
    let back = run_kernel(&gather, vec![out[3].clone(), indices, vec![0; 8]]);
    assert_eq!(back[2], values);
}

#[test]
fn dequantize_q4_splits_nibbles() {
    let packed = LazyBuffer::input(vec![1], DType::I32);
    let scales = LazyBuffer::input(vec![1], DType::F32);
    let k = kernel_of(&LazyBuffer::dequantize_q4(&packed, &scales, 2, 2).unwrap());
    // 154 = 0x9a: low nibble 10, high nibble 9.
    let mut m = Machine { k: &k, vals: HashMap::from([(3, 0), (7, 154)]), bufs: vec![] };
    m.run(8, 12);
    m.run(14, 18);
    m.run(20, 24);
    assert_eq!(m.vals[&11], 2);
    assert_eq!(m.vals[&17], 1);
    assert_eq!(m.vals[&21], 0);
    assert_eq!(m.vals[&23], 1);
}
