//! Operations that run as one kernel launch on CUDA devices.
//!
//! Other devices, and element types without a kernel, get the composition of
//! standard operations that computes the same.
use vstd::prelude::*;

use crate::dtype::{DType, Device};
use crate::error::Error;
use crate::shape::Shape;
use crate::tape::{bin, leaf, tri, un, Op, Scalar, Tape, Tensor, Term, Val, Weight};

verus! {

/// Gate activation of a packed gate/up projection.
#[derive(Clone, Copy, PartialEq, Eq, Structural, Debug)]
pub enum SwigluAct {
    Silu,
    GeluTanh,
}

/// Geometry of a kernel launch.
#[derive(Clone, Copy, PartialEq, Eq, Debug)]
pub struct LaunchConfig {
    pub grid_dim: (u32, u32, u32),
    pub block_dim: (u32, u32, u32),
    pub shared_mem_bytes: u32,
}

/// Blocks of `block` threads that cover `total` of them.
pub open spec fn blocks_for(total: int, block: int) -> int {
    if total % block == 0 {
        total / block
    } else {
        total / block + 1
    }
}

pub fn block_count(total: u32, block: u32) -> (n: u32)
    requires
        block >= 2,
    ensures
        n == blocks_for(total as int, block as int),
        n * block >= total,
        n > 0 ==> (n - 1) * block < total,
{
    let q: u32 = total / block;
    proof {
        vstd::arithmetic::div_mod::lemma_fundamental_div_mod(total as int, block as int);
        let (t, b) = (total as int, block as int);
        assert(b * (t / b) == (t / b) * b) by (nonlinear_arith);
        assert((t / b + 1) * b == (t / b) * b + b) by (nonlinear_arith);
        assert((t / b - 1) * b == (t / b) * b - b) by (nonlinear_arith);
        assert(t / b < 0x8000_0000) by (nonlinear_arith)
            requires
                0 <= t <= 0xffff_ffff,
                b >= 2,
        ;
    }
    if total % block == 0 { q } else { q + 1 }
}

/// One kernel covers this device and element type.
pub open spec fn has_kernel(device: Device, dtype: DType) -> bool {
    device == Device::Cuda && (dtype == DType::F32 || dtype == DType::BF16)
}

fn kernel_available(device: Device, dtype: DType) -> (r: bool)
    ensures
        r == has_kernel(device, dtype),
{
    device == Device::Cuda && (dtype == DType::F32 || dtype == DType::BF16)
}

/// `x / sqrt(mean(x^2) + eps)` over the last axis.
pub open spec fn rms_normalized(x: Val, eps: Scalar) -> Val {
    bin(
        Op::BroadcastDiv,
        x,
        un(
            Op::Sqrt,
            un(Op::AddScalar(eps), un(Op::MeanKeep(x.shape.last_axis()), un(Op::Sqr, x))),
        ),
    )
}

/// Records `x / sqrt(mean(x^2) + eps)` over the last axis.
pub fn rms_normalize(t: &mut Tape, x: Tensor, eps: Scalar) -> (r: Tensor)
    requires
        old(t).has(x),
    ensures
        final(t).computed(*old(t)),
        final(t).has(r),
        r@ == rms_normalized(x@, eps),
{
    let sq = t.un(Op::Sqr, x);
    let mean = t.un(Op::MeanKeep(x.shape.last_axis()), sq);
    let shifted = t.un(Op::AddScalar(eps), mean);
    let rms = t.un(Op::Sqrt, shifted);
    t.bin(Op::BroadcastDiv, x, rms)
}

/// The new residual stream `x + residual`.
pub open spec fn residual_sum(
    device: Device,
    x: Val,
    residual: Val,
    weight: Weight,
    eps: Scalar,
    plus_one: bool,
) -> Val {
    if has_kernel(device, x.dtype) {
        un(
            Op::Select { dim: 0, index: 0 },
            tri(Op::FusedAddRmsNorm { eps, plus_one }, x, residual, leaf(Op::Param(weight))),
        )
    } else {
        bin(Op::Add, x, residual)
    }
}

/// The RMS norm of `x + residual`, weighted by `weight` or by `1 + weight`.
pub open spec fn residual_norm(
    device: Device,
    x: Val,
    residual: Val,
    weight: Weight,
    eps: Scalar,
    plus_one: bool,
) -> Val {
    if has_kernel(device, x.dtype) {
        un(
            Op::Select { dim: 0, index: 1 },
            tri(Op::FusedAddRmsNorm { eps, plus_one }, x, residual, leaf(Op::Param(weight))),
        )
    } else {
        composed_norm(x, residual, weight, eps, plus_one)
    }
}

/// The weight in single precision.
pub open spec fn wide(weight: Weight) -> Val {
    un(Op::ToDType(DType::F32), leaf(Op::Param(weight)))
}

/// [`residual_norm`] as a composition of standard operations.
pub open spec fn composed_norm(
    x: Val,
    residual: Val,
    weight: Weight,
    eps: Scalar,
    plus_one: bool,
) -> Val {
    let sum = bin(Op::Add, x, residual);
    un(
        Op::ToDType(sum.dtype),
        bin(
            Op::BroadcastMul,
            rms_normalized(un(Op::ToDType(DType::F32), sum), eps),
            if plus_one { un(Op::AddScalar(Scalar::Int(1)), wide(weight)) } else { wide(weight) },
        ),
    )
}

/// What each operation gives on the readings of its operands.
#[verifier::reject_recursive_types(V)]
pub struct Reading<V> {
    pub leaf: spec_fn(Op) -> V,
    pub un: spec_fn(Op, V) -> V,
    pub bin: spec_fn(Op, V, V) -> V,
    pub tri: spec_fn(Op, V, V, V) -> V,
    pub other: spec_fn(Term) -> V,
}

impl<V> Reading<V> {
    pub open spec fn of(self, t: Term) -> V
        decreases t,
    {
        match t {
            Term::Leaf(op) => (self.leaf)(op),
            Term::Un(op, a) => (self.un)(op, self.of(*a)),
            Term::Bin(op, a, b) => (self.bin)(op, self.of(*a), self.of(*b)),
            Term::Tri(op, a, b, c) => (self.tri)(op, self.of(*a), self.of(*b), self.of(*c)),
            _ => (self.other)(t),
        }
    }

    /// The kernel gives what the composition gives.
    pub open spec fn trusts_kernel(self, device: Device, x: Val, residual: Val, eps: Scalar) -> bool {
        forall|weight: Weight, plus_one: bool|
            self.of(
                (#[trigger] residual_norm(device, x, residual, weight, eps, plus_one)).term,
            ) == self.of(composed_norm(x, residual, weight, eps, plus_one).term)
    }
}

/// Norming with `1 + w` is norming with a weight that is `w + 1`: in every
/// reading in which `v` is, in single precision, `w` plus one, and in which the
/// kernel gives what the composition gives.
pub proof fn law_plus_one<V>(
    m: Reading<V>,
    device: Device,
    x: Val,
    residual: Val,
    w: Weight,
    v: Weight,
    eps: Scalar,
)
    requires
        m.trusts_kernel(device, x, residual, eps),
        m.of(wide(v).term) == m.of(un(Op::AddScalar(Scalar::Int(1)), wide(w)).term),
    ensures
        m.of(residual_norm(device, x, residual, w, eps, true).term) == m.of(
            residual_norm(device, x, residual, v, eps, false).term,
        ),
{
    let one = un(Op::AddScalar(Scalar::Int(1)), wide(w));
    let normed = rms_normalized(un(Op::ToDType(DType::F32), bin(Op::Add, x, residual)), eps);
    let (a, b) = (bin(Op::BroadcastMul, normed, one), bin(Op::BroadcastMul, normed, wide(v)));
    assert(m.of(a.term) == m.of(b.term)) by {
        reveal(bin);
    }
    assert(m.of(composed_norm(x, residual, w, eps, true).term) == m.of(
        composed_norm(x, residual, v, eps, false).term,
    )) by {
        reveal(un);
    }
}

/// `x + residual`, then RMS-norm with `weight` (or `1 + weight`). Returns
/// `(residual_sum, normed)`; one kernel launch where there is a kernel.
pub fn fused_add_rmsnorm(
    t: &mut Tape,
    x: Tensor,
    residual: Tensor,
    weight: Weight,
    eps: Scalar,
    plus_one: bool,
) -> (r: (Tensor, Tensor))
    requires
        old(t).has(x),
        old(t).has(residual),
    ensures
        final(t).computed(*old(t)),
        final(t).has(r.0),
        final(t).has(r.1),
        r.0@ == residual_sum(old(t).on(), x@, residual@, weight, eps, plus_one),
        r.1@ == residual_norm(old(t).on(), x@, residual@, weight, eps, plus_one),
{
    if kernel_available(t.device(), x.dtype) {
        proof {
            lemma_contiguous(x@);
            lemma_contiguous(residual@);
            lemma_contiguous(leaf(Op::Param(weight)));
        }
        let x = t.un(Op::Contiguous, x);
        let residual = t.un(Op::Contiguous, residual);
        let w = t.leaf(Op::Param(weight));
        let w = t.un(Op::Contiguous, w);
        let both = t.tri(Op::FusedAddRmsNorm { eps, plus_one }, x, residual, w);
        let sum = t.un(Op::Select { dim: 0, index: 0 }, both);
        let normed = t.un(Op::Select { dim: 0, index: 1 }, both);
        return (sum, normed);
    }
    let sum = t.bin(Op::Add, x, residual);
    let x32 = t.un(Op::ToDType(DType::F32), sum);
    let normed = rms_normalize(t, x32, eps);
    let w = t.leaf(Op::Param(weight));
    let w = t.un(Op::ToDType(DType::F32), w);
    let w = if plus_one { t.un(Op::AddScalar(Scalar::Int(1)), w) } else { w };
    let normed = t.bin(Op::BroadcastMul, normed, w);
    let normed = t.un(Op::ToDType(sum.dtype), normed);
    (sum, normed)
}

/// Laying a tensor out anew does not change it.
pub proof fn lemma_contiguous(x: Val)
    ensures
        un(Op::Contiguous, x) == x,
{
    reveal(un);
}

/// Launch of the fused add and norm over a tensor of this shape: one block per
/// row, and a reduction slot per warp.
pub fn add_rmsnorm_launch(shape: Shape) -> (r: LaunchConfig)
    requires
        shape.countable(),
        shape.last() > 0,
    ensures
        r.grid_dim == ((shape.elems() / shape.last() as int) as u32, 1u32, 1u32),
        r.block_dim == (256u32, 1u32, 1u32),
        r.shared_mem_bytes == 32,
{
    let el: usize = shape.elem_count();
    let rows: usize = el / shape.last();
    let block: u32 = 256;
    LaunchConfig {
        grid_dim: (rows as u32, 1, 1),
        block_dim: (block, 1, 1),
        shared_mem_bytes: (block / 32) * 4,
    }
}

/// The activation under its kernel's number.
pub fn act_code(act: SwigluAct) -> (r: i32)
    ensures
        r == (if act == SwigluAct::Silu { 0int } else { 1 }),
{
    match act {
        SwigluAct::Silu => 0,
        SwigluAct::GeluTanh => 1,
    }
}

/// `act(gate) * up` of a packed tensor whose first half is `gate`.
pub open spec fn swiglu(device: Device, gate_up: Val, act: SwigluAct) -> Val {
    if has_kernel(device, gate_up.dtype) {
        un(Op::FusedSwiglu(act), gate_up)
    } else {
        bin(
            Op::Mul,
            un(
                if act == SwigluAct::Silu { Op::Silu } else { Op::Gelu },
                un(Op::Half { index: 0 }, gate_up),
            ),
            un(Op::Half { index: 1 }, gate_up),
        )
    }
}

/// `act(gate) * up` for a packed `[..., 2*d]` tensor (gate first). An odd last
/// axis has no halves of one length: the kernel does not take it, and elsewhere
/// the halves cannot be multiplied.
pub fn fused_swiglu(t: &mut Tape, gate_up: Tensor, act: SwigluAct) -> (r: Result<Tensor, Error>)
    requires
        old(t).has(gate_up),
    ensures
        final(t).computed(*old(t)),
        r is Err <==> gate_up.shape.last() % 2 != 0,
        r matches Err(e) ==> e == (if has_kernel(old(t).on(), gate_up.dtype) {
            Error::OddLastDim
        } else {
            Error::ShapeMismatch
        }),
        r matches Ok(y) ==> final(t).has(y) && y@ == swiglu(old(t).on(), gate_up@, act),
{
    if kernel_available(t.device(), gate_up.dtype) {
        proof {
            lemma_contiguous(gate_up@);
        }
        let gu = t.un(Op::Contiguous, gate_up);
        if gu.shape.last() % 2 != 0 {
            return Err(Error::OddLastDim);
        }
        return Ok(t.un(Op::FusedSwiglu(act), gu));
    }
    if gate_up.shape.last() % 2 != 0 {
        return Err(Error::ShapeMismatch);
    }
    let gate = t.un(Op::Half { index: 0 }, gate_up);
    let up = t.un(Op::Half { index: 1 }, gate_up);
    let g = match act {
        SwigluAct::Silu => t.un(Op::Silu, gate),
        SwigluAct::GeluTanh => t.un(Op::Gelu, gate),
    };
    Ok(t.bin(Op::Mul, g, up))
}

/// Launch of the fused activation over a packed tensor of this shape: one
/// thread per output element.
pub fn swiglu_launch(shape: Shape) -> (r: LaunchConfig)
    requires
        shape.countable(),
        shape.last() > 0,
    ensures
        ({
            let two_d = shape.last() as int;
            let outputs = shape.elems() / two_d * (two_d / 2);
            &&& r.grid_dim.0 == blocks_for((outputs as u32) as int, 256)
            &&& r.grid_dim.1 == 1 && r.grid_dim.2 == 1
        }),
        r.block_dim == (256u32, 1u32, 1u32),
        r.shared_mem_bytes == 0,
{
    let two_d: usize = shape.last();
    let d: usize = two_d / 2;
    let rows: usize = shape.elem_count() / two_d;
    proof {
        let (e, w) = (shape.elems(), two_d as int);
        assert(e / w * (w / 2) <= e) by (nonlinear_arith)
            requires
                e >= 0,
                w >= 1,
        ;
        assert(0 <= e / w * (w / 2)) by (nonlinear_arith)
            requires
                e >= 0,
                w >= 1,
        ;
    }
    let total: u32 = (rows * d) as u32;
    let block: u32 = 256;
    LaunchConfig {
        grid_dim: (block_count(total, block), 1, 1),
        block_dim: (block, 1, 1),
        shared_mem_bytes: 0,
    }
}

} // verus!
