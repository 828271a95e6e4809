//! Block quantization: the formats, and the kernels that pack and unpack them.
use vstd::prelude::*;
use crate::block::{
    bin, cst_i32, end_of, global, load, range_to, store, un, Block,
};
use crate::kernel::Kernel;
use crate::lang::{BinaryOp as B, Const, DType, Error, Instr, ReduceOp, UnaryOp, F32_ONE_BITS};
use crate::lazy::{LazyBuffer, LazyOp};
use crate::shape::{lemma_shape_1, lemma_shape_2, num_elements, nz, prod, shape_fits};

verus! {

/// Quantization formats.
#[derive(Clone, Copy, Debug, PartialEq, Eq, Structural)]
pub enum QuantType {
    Q8_0,
    Q4_0,
}

impl QuantType {
    /// The number of values that share one scale.
    pub fn block_size(&self) -> (r: usize)
        ensures
            r == 32,
    {
        match self {
            Self::Q8_0 => 32,
            Self::Q4_0 => 32,
        }
    }

    /// The number of bits per quantized value.
    pub fn bits(&self) -> (r: usize)
        ensures
            r == (match self {
                QuantType::Q8_0 => 8usize,
                QuantType::Q4_0 => 4usize,
            }),
    {
        match self {
            Self::Q8_0 => 8,
            Self::Q4_0 => 4,
        }
    }
}

/// Bit pattern of the single-precision value `127.0`, the largest `q8` magnitude.
pub const F32_127_BITS: u32 = 0x42fe_0000u32;

/// The kernel that unpacks `q8` values: `dst[i] = (f32) src[i] * scales[i / group_size]`.
pub open spec fn dequantize_q8_kernel(num_elements: usize, group_size: usize) -> Seq<Instr> {
    seq![
        global(0, DType::I32),
        global(1, DType::F32),
        global(2, DType::F32),
        range_to(num_elements as i32, 11),
        cst_i32(group_size as i32),
        bin(B::Div, 3, 4, DType::I32),
        load(1, 5, DType::F32),
        load(0, 3, DType::I32),
        un(UnaryOp::Cast(DType::F32), 7, DType::F32),
        bin(B::Mul, 8, 6, DType::F32),
        store(2, 3, 9, DType::F32),
        end_of(3),
    ]
}

/// The kernel that unpacks `q4` values, two per packed `i32`: the low nibble
/// (`packed % 16`) minus `8` goes to `dst[2 i]`, the high nibble
/// (`(packed / 16) % 16`) minus `8` to `dst[2 i + 1]`, both times the scale of
/// their group, which holds `group_size / 2` packed values.
pub open spec fn dequantize_q4_kernel(num_elements: usize, group_size: usize) -> Seq<Instr> {
    seq![
        global(0, DType::I32),
        global(1, DType::F32),
        global(2, DType::F32),
        range_to((num_elements / 2) as i32, 26),
        cst_i32((group_size / 2) as i32),
        bin(B::Div, 3, 4, DType::I32),
        load(1, 5, DType::F32),
        load(0, 3, DType::I32),
        cst_i32(16),
        bin(B::Mod, 7, 8, DType::I32),
        cst_i32(8),
        bin(B::Sub, 9, 10, DType::I32),
        un(UnaryOp::Cast(DType::F32), 11, DType::F32),
        bin(B::Mul, 12, 6, DType::F32),
        cst_i32(16),
        bin(B::Div, 7, 14, DType::I32),
        bin(B::Mod, 15, 8, DType::I32),
        bin(B::Sub, 16, 10, DType::I32),
        un(UnaryOp::Cast(DType::F32), 17, DType::F32),
        bin(B::Mul, 18, 6, DType::F32),
        cst_i32(2),
        bin(B::Mul, 3, 20, DType::I32),
        cst_i32(1),
        bin(B::Add, 21, 22, DType::I32),
        store(2, 21, 13, DType::F32),
        store(2, 23, 19, DType::F32),
        end_of(3),
    ]
}

impl LazyBuffer {
    /// Unpacks `num_elements` `q8` values held one per `i32` in `packed`,
    /// with one `f32` scale in `scales` per group of `group_size` values.
    pub fn dequantize_q8(
        packed: &LazyBuffer,
        scales: &LazyBuffer,
        num_elements: usize,
        group_size: usize,
    ) -> (r: Result<LazyBuffer, Error>)
        requires
            group_size > 0,
        ensures
            r is Ok,
            r matches Ok(b) ==> {
                &&& b.shape_view() == seq![num_elements]
                &&& b.dtype_view() == DType::F32
                &&& b.op_view() matches LazyOp::Ssa(k, args)
                &&& k@ == dequantize_q8_kernel(num_elements, group_size)
                &&& args@ == seq![*packed, *scales]
            },
    {
        let _n_groups = num_elements / group_size;
        let dtype = DType::F32;

        let mut b = Block::empty();
        let src = b.push(Instr::DefineGlobal { index: 0, dtype: DType::I32 });
        let scale_buf = b.push(Instr::DefineGlobal { index: 1, dtype: DType::F32 });
        let dst = b.push(Instr::DefineGlobal { index: 2, dtype });

        #[verifier::truncate]
        let up = num_elements as i32;
        let r = b.range(0, up, 1);

        #[verifier::truncate]
        let gs = group_size as i32;
        let group_cst = b.cst(gs);
        let group_id = b.binary(B::Div, r, group_cst, DType::I32);
        let scale = b.push(Instr::Load { src: scale_buf, offset: group_id.to_a(), dtype: DType::F32 });

        let packed_val = b.push(Instr::Load { src, offset: r.to_a(), dtype: DType::I32 });
        let as_float = b.unary(UnaryOp::Cast(DType::F32), packed_val, DType::F32);
        let result = b.binary(B::Mul, as_float, scale, DType::F32);

        b.push(Instr::Store { dst, offset: r.to_a(), value: result.to_a(), dtype });
        b.end_range(r);

        let instrs = b.into_instrs();
        assert(instrs@ =~= dequantize_q8_kernel(num_elements, group_size));
        let ssa = Kernel::from_instrs(instrs)?;
        let mut args: Vec<LazyBuffer> = Vec::new();
        args.push(packed.clone());
        args.push(scales.clone());
        let mut dims: Vec<usize> = Vec::new();
        dims.push(num_elements);
        proof {
            lemma_shape_1(num_elements);
        }
        assert(args@ =~= seq![*packed, *scales]);
        assert(dims@ =~= seq![num_elements]);
        Ok(LazyBuffer::ssa(ssa, args, dims, dtype))
    }

    /// Unpacks `num_elements` `q4` values held two per `i32` in `packed`
    /// (low nibble first), with one `f32` scale in `scales` per group of
    /// `group_size` values.
    pub fn dequantize_q4(
        packed: &LazyBuffer,
        scales: &LazyBuffer,
        num_elements: usize,
        group_size: usize,
    ) -> (r: Result<LazyBuffer, Error>)
        ensures
            r is Ok,
            r matches Ok(b) ==> {
                &&& b.shape_view() == seq![num_elements]
                &&& b.dtype_view() == DType::F32
                &&& b.op_view() matches LazyOp::Ssa(k, args)
                &&& k@ == dequantize_q4_kernel(num_elements, group_size)
                &&& args@ == seq![*packed, *scales]
            },
    {
        let n_packed = num_elements / 2;
        let dtype = DType::F32;

        let mut b = Block::empty();
        let src = b.push(Instr::DefineGlobal { index: 0, dtype: DType::I32 });
        let scale_buf = b.push(Instr::DefineGlobal { index: 1, dtype: DType::F32 });
        let dst = b.push(Instr::DefineGlobal { index: 2, dtype });

        #[verifier::truncate]
        let up = n_packed as i32;
        let r = b.range(0, up, 1);

        #[verifier::truncate]
        let half_group = (group_size / 2) as i32;
        let group_cst = b.cst(half_group);
        let group_id = b.binary(B::Div, r, group_cst, DType::I32);
        let scale = b.push(Instr::Load { src: scale_buf, offset: group_id.to_a(), dtype: DType::F32 });

        let packed_val = b.push(Instr::Load { src, offset: r.to_a(), dtype: DType::I32 });

        // Low nibble: packed % 16.
        let nibble = b.cst(16i32);
        let lo = b.binary(B::Mod, packed_val, nibble, DType::I32);
        let eight = b.cst(8i32);
        let lo_centered = b.binary(B::Sub, lo, eight, DType::I32);
        let lo_f = b.unary(UnaryOp::Cast(DType::F32), lo_centered, DType::F32);
        let lo_result = b.binary(B::Mul, lo_f, scale, DType::F32);

        // High nibble: (packed / 16) % 16.
        let sixteen = b.cst(16i32);
        let hi_raw = b.binary(B::Div, packed_val, sixteen, DType::I32);
        let hi = b.binary(B::Mod, hi_raw, nibble, DType::I32);
        let hi_centered = b.binary(B::Sub, hi, eight, DType::I32);
        let hi_f = b.unary(UnaryOp::Cast(DType::F32), hi_centered, DType::F32);
        let hi_result = b.binary(B::Mul, hi_f, scale, DType::F32);

        let two = b.cst(2i32);
        let dst_lo = b.binary(B::Mul, r, two, DType::I32);
        let one = b.cst(1i32);
        let dst_hi = b.binary(B::Add, dst_lo, one, DType::I32);

        b.push(Instr::Store { dst, offset: dst_lo.to_a(), value: lo_result.to_a(), dtype });
        b.push(Instr::Store { dst, offset: dst_hi.to_a(), value: hi_result.to_a(), dtype });

        b.end_range(r);

        let instrs = b.into_instrs();
        assert(instrs@ =~= dequantize_q4_kernel(num_elements, group_size));
        let ssa = Kernel::from_instrs(instrs)?;
        let mut args: Vec<LazyBuffer> = Vec::new();
        args.push(packed.clone());
        args.push(scales.clone());
        let mut dims: Vec<usize> = Vec::new();
        dims.push(num_elements);
        proof {
            lemma_shape_1(num_elements);
        }
        assert(args@ =~= seq![*packed, *scales]);
        assert(dims@ =~= seq![num_elements]);
        Ok(LazyBuffer::ssa(ssa, args, dims, dtype))
    }

    /// Quantizes to `q8` in groups of `group_size` values: each group is
    /// scaled so that its largest magnitude maps to `127`, and cast to `i32`.
    /// Returns the quantized values, flattened, and the per-group maxima of
    /// the magnitudes.
    pub fn quantize_to_q8(&self, group_size: usize) -> (r: Result<(LazyBuffer, LazyBuffer), Error>)
        requires
            group_size > 0,
        ensures
            r is Ok <==> prod(self.shape_view()) % (group_size as nat) == 0,
            r is Err ==> r == Err::<(LazyBuffer, LazyBuffer), Error>(
                Error::NotDivisible {
                    num_elements: prod(self.shape_view()) as usize,
                    group_size,
                },
            ),
            r matches Ok((q, s)) ==> q8_graph(*self, group_size, q, s),
    {
        let num_elements = num_elements(self.dims());
        if num_elements % group_size != 0 {
            return Err(Error::NotDivisible { num_elements, group_size });
        }
        let n_groups = num_elements / group_size;
        proof {
            vstd::arithmetic::div_mod::lemma_fundamental_div_mod(num_elements as int, group_size as int);
            assert(n_groups * group_size == num_elements) by (nonlinear_arith)
                requires
                    num_elements == group_size * (num_elements / group_size) + num_elements % group_size,
                    num_elements % group_size == 0,
                    n_groups == num_elements / group_size,
            ;
            lemma_shape_2(n_groups, group_size);
            assert(nz(n_groups) * nz(group_size) <= usize::MAX) by (nonlinear_arith)
                requires
                    n_groups * group_size == num_elements,
                    num_elements <= usize::MAX,
                    group_size > 0,
                    nz(group_size) == group_size,
                    n_groups == 0 ==> nz(n_groups) == 1,
                    n_groups > 0 ==> nz(n_groups) == n_groups,
                    group_size <= usize::MAX,
            ;
            lemma_shape_1(num_elements);
            lemma_shape_1(n_groups);
        }

        let mut grouped: Vec<usize> = Vec::new();
        grouped.push(n_groups);
        grouped.push(group_size);
        assert(grouped@ =~= seq![n_groups, group_size]);
        let reshaped = self.reshape(grouped)?;
        let abs_vals = reshaped.unary(UnaryOp::Neg)?.binary(B::Max, reshaped.clone())?;
        let scales = abs_vals.reduce(ReduceOp::Max, 1)?;
        let inv_scale = {
            let one = Self::cst(Const::F32(F32_127_BITS));
            let one = one.broadcast(crate::shape::copy_dims(scales.dims()))?;
            one.binary(B::Div, scales.clone())?
        };
        let inv_broadcast = inv_scale.broadcast(crate::shape::copy_dims(reshaped.dims()))?;
        let quantized_f = reshaped.binary(B::Mul, inv_broadcast)?;
        let quantized = quantized_f.unary(UnaryOp::Cast(DType::I32))?;
        let mut flat: Vec<usize> = Vec::new();
        flat.push(num_elements);
        assert(flat@ =~= seq![num_elements]);
        let quantized = quantized.reshape(flat)?;
        let mut groups: Vec<usize> = Vec::new();
        groups.push(n_groups);
        assert(groups@ =~= seq![n_groups]);
        proof {
            lemma_shape_2(n_groups, 1);
            assert(n_groups * 1 == n_groups) by (nonlinear_arith);
            assert(scales.shape_view() =~= seq![n_groups, 1usize]);
        }
        let scales = scales.reshape(groups)?;
        Ok((quantized, scales))
    }
}

/// The graph that `q8` quantization builds from `x`: with
/// `g = x.reshape([n / group_size, group_size])` and
/// `m = reduce_max(max(-g, g), 1)`, the values are
/// `cast_i32(g * broadcast(broadcast(127) / m))` flattened, and the scales are
/// `m` flattened.
pub open spec fn q8_graph(x: LazyBuffer, group_size: usize, q: LazyBuffer, s: LazyBuffer) -> bool {
    let n = prod(x.shape_view());
    let n_groups = (n / (group_size as nat)) as usize;
    &&& q.shape_view() == seq![n as usize]
    &&& q.dtype_view() == DType::I32
    &&& s.shape_view() == seq![n_groups]
    &&& s.dtype_view() == x.dtype_view()
    &&& s.op_view() matches LazyOp::Reshape(m)
    &&& m.shape_view() == seq![n_groups, 1usize]
    &&& m.op_view() matches LazyOp::Reduce(ReduceOp::Max, 1, a)
    &&& a.op_view() matches LazyOp::Binary(B::Max, neg, g)
    &&& g.shape_view() == seq![n_groups, group_size]
    &&& g.op_view() == LazyOp::Reshape(x)
    &&& neg.op_view() == LazyOp::Unary(UnaryOp::Neg, g)
    &&& q.op_view() matches LazyOp::Reshape(c)
    &&& c.op_view() matches LazyOp::Unary(UnaryOp::Cast(DType::I32), p)
    &&& p.op_view() matches LazyOp::Binary(B::Mul, g2, ib)
    &&& g2 == g
    &&& ib.op_view() matches LazyOp::Broadcast(inv)
    &&& inv.op_view() matches LazyOp::Binary(B::Div, k, m2)
    &&& m2 == m
    &&& k.op_view() matches LazyOp::Broadcast(c127)
    &&& c127.op_view() == LazyOp::Cst(Const::F32(F32_127_BITS))
}

/// `F32_127_BITS` is the single-precision pattern of `127.0`: sign clear,
/// biased exponent `133` (that is `2^6`), and a fraction `m` with
/// `(1 + m / 2^23) * 2^6 == 127`.
pub proof fn law_f32_127_bits()
    ensures
        F32_127_BITS >> 31u32 == 0,
        (F32_127_BITS >> 23u32) & 0xffu32 == 133,
        ((0x80_0000u32 + (F32_127_BITS & 0x7f_ffffu32)) as int) * 64 == 127 * 0x80_0000,
{
    let b = F32_127_BITS;
    assert(b >> 31u32 == 0 && (b >> 23u32) & 0xffu32 == 133 && b & 0x7f_ffffu32 == 0x7e_0000u32) by (bit_vector)
        requires
            b == 0x42fe_0000u32,
    ;
}

} // verus!
