//! Lazy tensors: nodes of a computation graph that record a shape, an element
//! type and the operation that produces them.
use std::sync::Arc;
use vstd::prelude::*;
use crate::kernel::Kernel;
use crate::lang::{BinaryOp, Const, DType, Error, ReduceOp, UnaryOp, spec_const_dtype};
use crate::shape::{copy_dims, dims_eq, lemma_prod_nz_update_one, prod, shape_fits};

verus! {

/// The operation that produces a lazy tensor from its inputs.
pub enum LazyOp {
    /// Data supplied from outside the graph.
    Input,
    /// A scalar constant.
    Cst(Const),
    Unary(UnaryOp, LazyBuffer),
    Binary(BinaryOp, LazyBuffer, LazyBuffer),
    /// A reduction along one dimension, which keeps that dimension with size `1`.
    Reduce(ReduceOp, usize, LazyBuffer),
    Reshape(LazyBuffer),
    Broadcast(LazyBuffer),
    /// `cond ? on_true : on_false`, element by element.
    Where(LazyBuffer, LazyBuffer, LazyBuffer),
    /// Concatenation along one dimension.
    Cat(Vec<LazyBuffer>, usize),
    /// A kernel run on the inputs, whose buffers it defines in order.
    Ssa(Kernel, Vec<LazyBuffer>),
}

struct LazyNode {
    dims: Vec<usize>,
    dtype: DType,
    op: LazyOp,
}

/// A lazily computed tensor. Copies share the same node.
pub struct LazyBuffer {
    node: Arc<LazyNode>,
}

/// `Arc::clone` gives a second handle on the same allocation, so the value
/// behind it is the value behind `a`.
#[verifier::external_body]
fn arc_clone<T>(a: &Arc<T>) -> (r: Arc<T>)
    ensures
        r == *a,
{
    Arc::clone(a)
}

impl Clone for LazyBuffer {
    fn clone(&self) -> (r: Self)
        ensures
            r == *self,
    {
        proof {
            use_type_invariant(self);
        }
        LazyBuffer { node: arc_clone(&self.node) }
    }
}

/// A source shape can be broadcast to a destination shape: aligned on the
/// right, each source dimension is `1` or equals the destination's.
pub open spec fn broadcastable(src: Seq<usize>, dst: Seq<usize>) -> bool {
    &&& src.len() <= dst.len()
    &&& forall|i: int|
        0 <= i < src.len() ==> #[trigger] src[i] == 1 || src[i] == dst[dst.len() - src.len() + i]
}

/// The dtype of a unary operation's result.
pub open spec fn unary_dtype(op: UnaryOp, dtype: DType) -> DType {
    match op {
        UnaryOp::Cast(dt) => dt,
        _ => dtype,
    }
}

impl LazyBuffer {
    #[verifier::type_invariant]
    closed spec fn inv(&self) -> bool {
        shape_fits(self.node.dims@)
    }

    /// The shape.
    pub closed spec fn shape_view(&self) -> Seq<usize> {
        self.node.dims@
    }

    /// The element type.
    pub closed spec fn dtype_view(&self) -> DType {
        self.node.dtype
    }

    /// The producing operation.
    pub closed spec fn op_view(&self) -> LazyOp {
        self.node.op
    }

    fn make(dims: Vec<usize>, dtype: DType, op: LazyOp) -> (r: LazyBuffer)
        requires
            shape_fits(dims@),
        ensures
            r.shape_view() == dims@,
            r.dtype_view() == dtype,
            r.op_view() == op,
    {
        LazyBuffer { node: Arc::new(LazyNode { dims, dtype, op }) }
    }

    /// Every lazy tensor's shape is within the bound.
    pub fn dims(&self) -> (r: &Vec<usize>)
        ensures
            r@ == self.shape_view(),
            shape_fits(r@),
    {
        proof {
            use_type_invariant(self);
        }
        &self.node.dims
    }

    /// The number of dimensions.
    pub fn rank(&self) -> (r: usize)
        ensures
            r == self.shape_view().len(),
    {
        self.node.dims.len()
    }

    /// The element type.
    pub fn dtype(&self) -> (r: DType)
        ensures
            r == self.dtype_view(),
    {
        self.node.dtype
    }

    /// The producing operation.
    pub fn op(&self) -> (r: &LazyOp)
        ensures
            *r == self.op_view(),
    {
        &self.node.op
    }

    /// Data of the given shape and type, supplied from outside the graph.
    pub fn input(dims: Vec<usize>, dtype: DType) -> (r: LazyBuffer)
        requires
            shape_fits(dims@),
        ensures
            r.shape_view() == dims@,
            r.dtype_view() == dtype,
            r.op_view() == LazyOp::Input,
    {
        Self::make(dims, dtype, LazyOp::Input)
    }

    /// A scalar constant, of rank `0`.
    pub fn cst(c: Const) -> (r: LazyBuffer)
        ensures
            r.shape_view() == Seq::<usize>::empty(),
            r.dtype_view() == spec_const_dtype(c),
            r.op_view() == LazyOp::Cst(c),
    {
        let dims: Vec<usize> = Vec::new();
        assert(shape_fits(dims@));
        Self::make(dims, c.dtype(), LazyOp::Cst(c))
    }

    /// The result of running `kernel` on `args`, with the given shape and type.
    pub fn ssa(kernel: Kernel, args: Vec<LazyBuffer>, dims: Vec<usize>, dtype: DType) -> (r:
        LazyBuffer)
        requires
            shape_fits(dims@),
        ensures
            r.shape_view() == dims@,
            r.dtype_view() == dtype,
            r.op_view() == LazyOp::Ssa(kernel, args),
    {
        Self::make(dims, dtype, LazyOp::Ssa(kernel, args))
    }

    /// The same elements under another shape with as many elements.
    pub fn reshape(&self, dims: Vec<usize>) -> (r: Result<LazyBuffer, Error>)
        requires
            shape_fits(dims@),
        ensures
            r is Ok <==> prod(dims@) == prod(self.shape_view()),
            r matches Ok(b) ==> b.shape_view() == dims@ && b.dtype_view() == self.dtype_view()
                && b.op_view() == LazyOp::Reshape(*self),
            r is Err ==> r == Err::<LazyBuffer, Error>(Error::ShapeMismatch),
    {
        proof {
            use_type_invariant(self);
        }
        let n_src = crate::shape::num_elements(&self.node.dims);
        let n_dst = crate::shape::num_elements(&dims);
        if n_src != n_dst {
            return Err(Error::ShapeMismatch);
        }
        Ok(Self::make(dims, self.node.dtype, LazyOp::Reshape(self.clone())))
    }

    /// The tensor repeated along new leading dimensions and along its
    /// dimensions of size `1`.
    pub fn broadcast(&self, dims: Vec<usize>) -> (r: Result<LazyBuffer, Error>)
        requires
            shape_fits(dims@),
        ensures
            r is Ok <==> broadcastable(self.shape_view(), dims@),
            r matches Ok(b) ==> b.shape_view() == dims@ && b.dtype_view() == self.dtype_view()
                && b.op_view() == LazyOp::Broadcast(*self),
            r is Err ==> r == Err::<LazyBuffer, Error>(Error::BroadcastMismatch),
    {
        let src = &self.node.dims;
        if src.len() > dims.len() {
            return Err(Error::BroadcastMismatch);
        }
        let off = dims.len() - src.len();
        let mut i: usize = 0;
        while i < src.len()
            invariant
                src@ == self.shape_view(),
                src@.len() <= dims@.len(),
                dims@.len() <= usize::MAX,
                off + src@.len() == dims@.len(),
                i <= src@.len(),
                forall|k: int|
                    0 <= k < i ==> #[trigger] src@[k] == 1 || src@[k] == dims@[off + k],
            decreases src@.len() - i,
        {
            if src[i] != 1 && src[i] != dims[off + i] {
                assert(!(src@[i as int] == 1 || src@[i as int] == dims@[dims@.len() - src@.len() + i]));
                return Err(Error::BroadcastMismatch);
            }
            i += 1;
        }
        Ok(Self::make(dims, self.node.dtype, LazyOp::Broadcast(self.clone())))
    }

    /// An element-wise unary operation.
    pub fn unary(&self, op: UnaryOp) -> (r: Result<LazyBuffer, Error>)
        ensures
            r matches Ok(b) && b.shape_view() == self.shape_view() && b.dtype_view() == unary_dtype(
                op,
                self.dtype_view(),
            ) && b.op_view() == LazyOp::Unary(op, *self),
    {
        proof {
            use_type_invariant(self);
        }
        let dtype = match op {
            UnaryOp::Cast(dt) => dt,
            _ => self.node.dtype,
        };
        Ok(Self::make(copy_dims(&self.node.dims), dtype, LazyOp::Unary(op, self.clone())))
    }

    /// An element-wise binary operation between tensors of the same shape; the
    /// result has the element type of `self`.
    pub fn binary(&self, op: BinaryOp, rhs: LazyBuffer) -> (r: Result<LazyBuffer, Error>)
        ensures
            r is Ok <==> self.shape_view() == rhs.shape_view(),
            r matches Ok(b) ==> b.shape_view() == self.shape_view() && b.dtype_view()
                == self.dtype_view() && b.op_view() == LazyOp::Binary(op, *self, rhs),
            r is Err ==> r == Err::<LazyBuffer, Error>(Error::ShapeMismatch),
    {
        proof {
            use_type_invariant(self);
        }
        if !dims_eq(&self.node.dims, &rhs.node.dims) {
            return Err(Error::ShapeMismatch);
        }
        let dims = copy_dims(&self.node.dims);
        Ok(Self::make(dims, self.node.dtype, LazyOp::Binary(op, self.clone(), rhs)))
    }

    /// A reduction along `dim`, which keeps the dimension with size `1`.
    pub fn reduce(&self, op: ReduceOp, dim: usize) -> (r: Result<LazyBuffer, Error>)
        ensures
            r is Ok <==> dim < self.shape_view().len(),
            r matches Ok(b) ==> b.shape_view() == self.shape_view().update(dim as int, 1) && b.dtype_view()
                == self.dtype_view() && b.op_view() == LazyOp::Reduce(op, dim, *self),
            r is Err ==> r == Err::<LazyBuffer, Error>(
                Error::DimOutOfRange { dim, rank: self.shape_view().len() as usize },
            ),
    {
        proof {
            use_type_invariant(self);
        }
        let rank = self.node.dims.len();
        if dim >= rank {
            return Err(Error::DimOutOfRange { dim, rank });
        }
        let mut dims = copy_dims(&self.node.dims);
        dims.set(dim, 1);
        proof {
            lemma_prod_nz_update_one(self.node.dims@, dim as int);
        }
        Ok(Self::make(dims, self.node.dtype, LazyOp::Reduce(op, dim, self.clone())))
    }

    /// `self ? on_true : on_false`, element by element; the three shapes must agree.
    pub fn where_(&self, on_true: LazyBuffer, on_false: LazyBuffer) -> (r: Result<LazyBuffer, Error>)
        ensures
            r is Ok <==> self.shape_view() == on_true.shape_view() && self.shape_view()
                == on_false.shape_view(),
            r matches Ok(b) ==> b.shape_view() == self.shape_view() && b.dtype_view()
                == on_true.dtype_view() && b.op_view() == LazyOp::Where(*self, on_true, on_false),
            r is Err ==> r == Err::<LazyBuffer, Error>(Error::ShapeMismatch),
    {
        proof {
            use_type_invariant(self);
        }
        if !dims_eq(&self.node.dims, &on_true.node.dims) || !dims_eq(
            &self.node.dims,
            &on_false.node.dims,
        ) {
            return Err(Error::ShapeMismatch);
        }
        let dims = copy_dims(&self.node.dims);
        let dtype = on_true.node.dtype;
        Ok(Self::make(dims, dtype, LazyOp::Where(self.clone(), on_true, on_false)))
    }

    /// Concatenation along `dim` of tensors whose shapes agree everywhere else.
    pub fn cat(bufs: &[&LazyBuffer], dim: usize) -> (r: Result<LazyBuffer, Error>)
        requires
            cat_valid(bufs@, dim as int) ==> cat_fits(bufs@, dim as int),
        ensures
            r is Ok <==> cat_valid(bufs@, dim as int),
            bufs@.len() == 0 ==> r == Err::<LazyBuffer, Error>(Error::EmptyInput),
            bufs@.len() > 0 && dim >= bufs@[0].shape_view().len() ==> r == Err::<LazyBuffer, Error>(
                Error::DimOutOfRange { dim, rank: bufs@[0].shape_view().len() as usize },
            ),
            bufs@.len() > 0 && dim < bufs@[0].shape_view().len() && !cat_valid(bufs@, dim as int)
                ==> r == Err::<LazyBuffer, Error>(Error::ShapeMismatch),
            r matches Ok(b) ==> {
                &&& b.shape_view() == cat_shape(bufs@, dim as int)
                &&& b.dtype_view() == bufs@[0].dtype_view()
                &&& b.op_view() matches LazyOp::Cat(v, d) && d == dim && v@.len() == bufs@.len() && (
                forall|i: int| 0 <= i < v@.len() ==> #[trigger] v@[i] == *bufs@[i])
            },
    {
        if bufs.len() == 0 {
            return Err(Error::EmptyInput);
        }
        let first = bufs[0];
        let rank = first.node.dims.len();
        if dim >= rank {
            return Err(Error::DimOutOfRange { dim, rank });
        }
        let mut i: usize = 0;
        while i < bufs.len()
            invariant
                0 < bufs@.len(),
                first == bufs@[0],
                rank == first.shape_view().len(),
                dim < rank,
                i <= bufs@.len(),
                forall|j: int| 0 <= j < i ==> #[trigger] shape_agrees(bufs@, dim as int, j),
            decreases bufs@.len() - i,
        {
            let d = &bufs[i].node.dims;
            if d.len() != rank {
                assert(!shape_agrees(bufs@, dim as int, i as int));
                return Err(Error::ShapeMismatch);
            }
            let mut k: usize = 0;
            while k < rank
                invariant
                    0 < bufs@.len(),
                    i < bufs@.len(),
                    dim < rank,
                    first == bufs@[0],
                    rank == first.shape_view().len(),
                    d@ == bufs@[i as int].shape_view(),
                    d@.len() == rank,
                    k <= rank,
                    forall|q: int| 0 <= q < k && q != dim ==> #[trigger] d@[q] == first.shape_view()[q],
                decreases rank - k,
            {
                if k != dim && d[k] != first.node.dims[k] {
                    assert(!shape_agrees(bufs@, dim as int, i as int));
                    return Err(Error::ShapeMismatch);
                }
                k += 1;
            }
            assert(shape_agrees(bufs@, dim as int, i as int));
            i += 1;
        }
        assert(cat_valid(bufs@, dim as int));
        let mut total: usize = 0;
        let mut i: usize = 0;
        while i < bufs.len()
            invariant
                cat_valid(bufs@, dim as int),
                cat_fits(bufs@, dim as int),
                i <= bufs@.len(),
                total == axis_sum(bufs@, dim as int, i as int),
            decreases bufs@.len() - i,
        {
            proof {
                lemma_axis_sum_mono(bufs@, dim as int, i + 1, bufs@.len() as int);
                assert(shape_agrees(bufs@, dim as int, i as int));
            }
            total = total + bufs[i].node.dims[dim];
            i += 1;
        }
        let mut dims = copy_dims(&first.node.dims);
        dims.set(dim, total);
        let mut parts: Vec<LazyBuffer> = Vec::new();
        let mut i: usize = 0;
        while i < bufs.len()
            invariant
                i <= bufs@.len(),
                parts@.len() == i,
                forall|j: int| 0 <= j < i ==> #[trigger] parts@[j] == *bufs@[j],
            decreases bufs@.len() - i,
        {
            parts.push(bufs[i].clone());
            i += 1;
        }
        assert(dims@ == cat_shape(bufs@, dim as int));
        Ok(Self::make(dims, first.node.dtype, LazyOp::Cat(parts, dim)))
    }
}

/// Buffer `j` has the rank of the first buffer and agrees with it off `dim`.
pub open spec fn shape_agrees(bufs: Seq<&LazyBuffer>, dim: int, j: int) -> bool {
    &&& bufs[j].shape_view().len() == bufs[0].shape_view().len()
    &&& forall|k: int|
        0 <= k < bufs[0].shape_view().len() && k != dim ==> #[trigger] bufs[j].shape_view()[k]
            == bufs[0].shape_view()[k]
}

/// The buffers can be concatenated along `dim`.
pub open spec fn cat_valid(bufs: Seq<&LazyBuffer>, dim: int) -> bool {
    &&& bufs.len() > 0
    &&& 0 <= dim < bufs[0].shape_view().len()
    &&& forall|j: int| 0 <= j < bufs.len() ==> #[trigger] shape_agrees(bufs, dim, j)
}

/// The sum of the sizes along `dim` of the first `n` buffers.
pub open spec fn axis_sum(bufs: Seq<&LazyBuffer>, dim: int, n: int) -> nat
    decreases n,
{
    if n <= 0 {
        0
    } else {
        axis_sum(bufs, dim, n - 1) + bufs[n - 1].shape_view()[dim] as nat
    }
}

/// The shape of the concatenation along `dim`.
pub open spec fn cat_shape(bufs: Seq<&LazyBuffer>, dim: int) -> Seq<usize> {
    bufs[0].shape_view().update(dim, axis_sum(bufs, dim, bufs.len() as int) as usize)
}

/// The concatenation's size along `dim`, and its shape, are representable.
pub open spec fn cat_fits(bufs: Seq<&LazyBuffer>, dim: int) -> bool {
    axis_sum(bufs, dim, bufs.len() as int) <= usize::MAX && shape_fits(cat_shape(bufs, dim))
}

pub proof fn lemma_axis_sum_mono(bufs: Seq<&LazyBuffer>, dim: int, a: int, b: int)
    requires
        0 <= a <= b,
    ensures
        axis_sum(bufs, dim, a) <= axis_sum(bufs, dim, b),
    decreases b - a,
{
    if a < b {
        lemma_axis_sum_mono(bufs, dim, a, b - 1);
    }
}

} // verus!
