use vstd::prelude::*;

verus! {

/// Element types of tensors and kernel values.
#[derive(Clone, Copy, Debug, PartialEq, Eq, Structural)]
pub enum DType {
    F16,
    BF16,
    F32,
    I32,
    I64,
}

/// Binary operations of the kernel language.
#[derive(Clone, Copy, Debug, PartialEq, Eq, Structural)]
pub enum BinaryOp {
    Add,
    Sub,
    Mul,
    Div,
    Mod,
    Min,
    Max,
    Eq,
    Ne,
    Lt,
    Le,
    Gt,
    Ge,
}

/// Unary operations of the kernel language.
#[derive(Clone, Copy, Debug, PartialEq, Eq, Structural)]
pub enum UnaryOp {
    Neg,
    Exp,
    Sin,
    Cos,
    Sqrt,
    Id,
    Cast(DType),
}

/// Reductions along one dimension.
#[derive(Clone, Copy, Debug, PartialEq, Eq, Structural)]
pub enum ReduceOp {
    Sum,
    Prod,
    Min,
    Max,
}

/// A scalar constant. Floating-point constants are held by their IEEE-754
/// bit pattern, so that the kernel language itself never computes with them.
#[derive(Clone, Copy, Debug, PartialEq, Eq, Structural)]
pub enum Const {
    I32(i32),
    I64(i64),
    F16(u16),
    BF16(u16),
    F32(u32),
}

/// Bit pattern of the single-precision value `1.0`.
pub const F32_ONE_BITS: u32 = 0x3f80_0000u32;

/// Bit pattern of the single-precision value `-inf`.
pub const F32_NEG_INF_BITS: u32 = 0xff80_0000u32;

/// Bit pattern of the half-precision value `-inf`.
pub const F16_NEG_INF_BITS: u16 = 0xfc00u16;

/// Bit pattern of the bfloat16 value `-inf`.
pub const BF16_NEG_INF_BITS: u16 = 0xff80u16;

/// The zero constant of a type, as a spec value.
pub open spec fn spec_zero(dtype: DType) -> Const {
    match dtype {
        DType::F16 => Const::F16(0),
        DType::BF16 => Const::BF16(0),
        DType::F32 => Const::F32(0),
        DType::I32 => Const::I32(0),
        DType::I64 => Const::I64(0),
    }
}

/// The smallest value of a type (minus infinity for the floating-point types).
pub open spec fn spec_min_value(dtype: DType) -> Const {
    match dtype {
        DType::F16 => Const::F16(F16_NEG_INF_BITS),
        DType::BF16 => Const::BF16(BF16_NEG_INF_BITS),
        DType::F32 => Const::F32(F32_NEG_INF_BITS),
        DType::I32 => Const::I32(i32::MIN),
        DType::I64 => Const::I64(i64::MIN),
    }
}

/// The type of a constant.
pub open spec fn spec_const_dtype(c: Const) -> DType {
    match c {
        Const::I32(_) => DType::I32,
        Const::I64(_) => DType::I64,
        Const::F16(_) => DType::F16,
        Const::BF16(_) => DType::BF16,
        Const::F32(_) => DType::F32,
    }
}

impl Const {
    /// The zero constant of `dtype`.
    pub fn zero(dtype: DType) -> (c: Const)
        ensures
            c == spec_zero(dtype),
    {
        match dtype {
            DType::F16 => Const::F16(0),
            DType::BF16 => Const::BF16(0),
            DType::F32 => Const::F32(0),
            DType::I32 => Const::I32(0),
            DType::I64 => Const::I64(0),
        }
    }

    /// The smallest value of `dtype`: the most negative integer, or minus infinity.
    pub fn min_value(dtype: DType) -> (c: Const)
        ensures
            c == spec_min_value(dtype),
    {
        match dtype {
            DType::F16 => Const::F16(F16_NEG_INF_BITS),
            DType::BF16 => Const::BF16(BF16_NEG_INF_BITS),
            DType::F32 => Const::F32(F32_NEG_INF_BITS),
            DType::I32 => Const::I32(i32::MIN),
            DType::I64 => Const::I64(i64::MIN),
        }
    }

    /// The type of this constant.
    pub fn dtype(&self) -> (d: DType)
        ensures
            d == spec_const_dtype(*self),
    {
        match self {
            Const::I32(_) => DType::I32,
            Const::I64(_) => DType::I64,
            Const::F16(_) => DType::F16,
            Const::BF16(_) => DType::BF16,
            Const::F32(_) => DType::F32,
        }
    }
}

/// The index of an instruction in a kernel; the value it defines.
#[derive(Clone, Copy, Debug, PartialEq, Eq, Structural)]
pub struct VarId(pub usize);

impl VarId {
    pub fn new(index: usize) -> (v: VarId)
        ensures
            v.0 == index,
    {
        VarId(index)
    }

    pub fn as_usize(&self) -> (r: usize)
        ensures
            r == self.0,
    {
        self.0
    }
}

/// An operand: the value of an earlier instruction, or an inline constant.
#[derive(Clone, Copy, Debug, PartialEq, Eq, Structural)]
pub enum A {
    Var(VarId),
    Const(Const),
}

/// Hardware indices available to a kernel.
#[derive(Clone, Copy, Debug, PartialEq, Eq, Structural)]
pub enum Special {
    LocalIdx,
    GridIdx,
}

#[allow(inconsistent_fields)]
/// An instruction of the SSA kernel language. Instruction `i` of a kernel
/// defines the variable `VarId(i)`.
#[derive(Clone, Copy, Debug, PartialEq, Eq, Structural)]
pub enum Instr {
    DefineAcc(Const),
    DefineGlobal { index: usize, dtype: DType },
    DefineLocal { size: usize, dtype: DType },
    Special(Special),
    Const(Const),
    Unary { op: UnaryOp, arg: A, dtype: DType },
    Binary { op: BinaryOp, lhs: A, rhs: A, dtype: DType },
    Range { lo: A, up: A, step: usize, end_idx: VarId },
    Load { src: VarId, offset: A, dtype: DType },
    Assign { dst: VarId, src: A },
    EndRange { start_idx: VarId },
    If { cond: A, end_idx: VarId },
    EndIf,
    Store { dst: VarId, offset: A, value: A, dtype: DType },
    Barrier,
    ReduceLocal { op: ReduceOp, arg: A },
    Where { cond: A, on_true: A, on_false: A, dtype: DType },
}

/// Errors reported by the tensor operations and the kernel checks.
#[derive(Clone, Copy, Debug, PartialEq, Eq, Structural)]
pub enum Error {
    /// A dimension index is not below the rank.
    DimOutOfRange { dim: usize, rank: usize },
    /// Two shapes do not have the same rank.
    RankMismatch { lhs: usize, rhs: usize },
    /// Two shapes differ where they must agree.
    ShapeMismatch,
    /// Two element types differ where they must agree.
    DTypeMismatch,
    /// An element count is not a multiple of the group size.
    NotDivisible { num_elements: usize, group_size: usize },
    /// The operation does not support this element type.
    UnsupportedDType(DType),
    /// More elements were asked for than the axis holds.
    KTooLarge { k: usize, len: usize },
    /// A shape cannot be broadcast to another.
    BroadcastMismatch,
    /// A kernel refers to an instruction it may not refer to.
    InvalidKernel { index: usize },
    /// An operation that needs at least one input got none.
    EmptyInput,
}

/// `x + y`.
pub open spec fn sum_int(x: int, y: int) -> int {
    x + y
}

/// `x * y`.
pub open spec fn product_int(x: int, y: int) -> int {
    x * y
}

/// `x <= y`.
pub open spec fn at_most(x: int, y: int) -> bool {
    x <= y
}

/// The zero of each type is of that type and is its additive identity:
/// adding it to any integer of the type gives that integer back; for the
/// floating-point types it is `+0.0`, the pattern with every bit clear.
pub proof fn law_zero_is_identity(d: DType)
    ensures
        spec_const_dtype(spec_zero(d)) == d,
        match spec_zero(d) {
            Const::I32(z) => forall|x: i32| #[trigger] sum_int(x as int, z as int) == x,
            Const::I64(z) => forall|x: i64| #[trigger] sum_int(x as int, z as int) == x,
            Const::F32(b) => b == 0,
            Const::F16(b) => b == 0,
            Const::BF16(b) => b == 0,
        },
{
}

/// The smallest value of each type is of that type and is no larger than
/// any value of it: the most negative integer, or minus infinity (sign set,
/// exponent all ones, fraction zero) for the floating-point types.
pub proof fn law_min_value_is_least(d: DType)
    ensures
        spec_const_dtype(spec_min_value(d)) == d,
        match spec_min_value(d) {
            Const::I32(m) => forall|x: i32| #[trigger] at_most(m as int, x as int),
            Const::I64(m) => forall|x: i64| #[trigger] at_most(m as int, x as int),
            Const::F32(b) => b >> 31u32 == 1 && (b >> 23u32) & 0xffu32 == 0xff && b & 0x7f_ffffu32 == 0,
            Const::F16(b) => b >> 15u16 == 1 && (b >> 10u16) & 0x1fu16 == 0x1f && b & 0x3ffu16 == 0,
            Const::BF16(b) => b >> 15u16 == 1 && (b >> 7u16) & 0xffu16 == 0xff && b & 0x7fu16 == 0,
        },
{
    let f32b = F32_NEG_INF_BITS;
    let f16b = F16_NEG_INF_BITS;
    let bf16b = BF16_NEG_INF_BITS;
    assert(f32b >> 31u32 == 1 && (f32b >> 23u32) & 0xffu32 == 0xff && f32b & 0x7f_ffffu32 == 0)
        by (bit_vector)
        requires
            f32b == 0xff80_0000u32,
    ;
    assert(f16b >> 15u16 == 1 && (f16b >> 10u16) & 0x1fu16 == 0x1f && f16b & 0x3ffu16 == 0) by (bit_vector)
        requires
            f16b == 0xfc00u16,
    ;
    assert(bf16b >> 15u16 == 1 && (bf16b >> 7u16) & 0xffu16 == 0xff && bf16b & 0x7fu16 == 0) by (bit_vector)
        requires
            bf16b == 0xff80u16,
    ;
}

} // verus!
