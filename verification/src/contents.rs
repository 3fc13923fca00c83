//! What parts that the models share do to the contents of a position.
//!
//! A [`Meaning`] reads values position by position. Here is what projections,
//! norms and means by softmax amount to in every such reading.
use vstd::prelude::*;

use crate::dtype::{DType, Device};
use crate::fused::{
    composed_norm, residual_norm, residual_sum, rms_normalized, swiglu, SwigluAct,
};
use crate::gathering::{lemma_sees, shows};
use crate::layer_norm::LayerNorm;
use crate::loader::Proj;
use crate::masks::{causal, chunk_cells};
use crate::positions::{
    attended, blocked_score, lays_out, lemma_bin_extent, lemma_cell_bin, lemma_cell_mask,
    lemma_cell_un, lemma_un_extent, pointwise, Meaning,
};
use crate::qwen3_5::spans::lemma_causal_cell;
use crate::shape::d4;
use crate::tape::{bin, leaf, mask_val, tri, un, Op, Scalar, Val, Weight};

verus! {

/// An operation on one value that treats positions one by one.
pub open spec fn alone(op: Op) -> bool {
    &&& !lays_out(op) && !(op is Narrow) && !(op is CacheView) && !(op is Expand)
    &&& op != Op::Contiguous
}

/// Contents after an operation on one value.
pub proof fn lemma_at_un<V>(m: Meaning<V>, op: Op, a: Val, i: int)
    requires
        alone(op),
    ensures
        m.at(un(op, a).term, i) == (m.un)(op, m.at(a.term, i)),
        m.len(un(op, a).term) == m.len(a.term),
{
    reveal(un);
}

/// Contents after an operation on two values.
pub proof fn lemma_at_bin<V>(m: Meaning<V>, op: Op, a: Val, b: Val, i: int)
    requires
        pointwise(op, b.term),
    ensures
        m.at(bin(op, a, b).term, i) == (m.bin)(op, m.at(a.term, i), m.at(b.term, i)),
        m.len(bin(op, a, b).term) == m.len(a.term),
{
    reveal(bin);
}

/// Contents after an operation on three values.
pub proof fn lemma_at_tri<V>(m: Meaning<V>, op: Op, a: Val, b: Val, c: Val, i: int)
    requires
        op != Op::KvRow && op != Op::KvRowsAt && !(op is IndexAdd),
    ensures
        m.at(tri(op, a, b, c).term, i) == (m.tri)(
            op,
            m.at(a.term, i),
            m.at(b.term, i),
            m.at(c.term, i),
        ),
        m.len(tri(op, a, b, c).term) == m.len(a.term),
{
    reveal(tri);
}

impl<V> Meaning<V> {
    /// The contents of a position after a projection.
    pub open spec fn projected(self, p: Proj, x: V) -> V {
        match p {
            Proj::Plain { weight, bias: None } => (self.un)(Op::Linear(weight), x),
            Proj::Plain { weight, bias: Some(b) } => (self.un)(Op::LinearBias(weight, b), x),
            Proj::Quant { weight, bias: None } => (self.un)(Op::QMatMul(weight), x),
            Proj::Quant { weight, bias: Some(b) } => (self.bin)(
                Op::BroadcastAdd,
                (self.un)(Op::QMatMul(weight), x),
                (self.leaf)(Op::Param(b)),
            ),
        }
    }

    /// A bias is added to the product.
    pub open spec fn adds_bias(self) -> bool {
        forall|w: Weight, b: Weight, x: V| #[trigger]
            (self.un)(Op::LinearBias(w, b), x) == (self.bin)(
                Op::BroadcastAdd,
                (self.un)(Op::Linear(w), x),
                (self.leaf)(Op::Param(b)),
            )
    }

    /// Adding `z` changes nothing.
    pub open spec fn adds_nothing(self, z: V) -> bool {
        forall|x: V| #[trigger] (self.bin)(Op::Add, x, z) == x
    }
}

/// A projection treats positions one by one.
pub proof fn lemma_at_proj<V>(m: Meaning<V>, p: Proj, x: Val, i: int)
    ensures
        m.at(p.apply(x).term, i) == m.projected(p, m.at(x.term, i)),
        m.len(p.apply(x).term) == m.len(x.term),
{
    reveal(un);
    reveal(bin);
    reveal_with_fuel(Meaning::at, 3);
    reveal_with_fuel(Meaning::len, 3);
}

/// A projection is the product with its own weight, dense or in blocks, and, where
/// it has a bias, that product plus the bias.
pub proof fn law_projection_is_product_plus_bias<V>(m: Meaning<V>, p: Proj, x: Val, i: int)
    requires
        m.adds_bias(),
    ensures
        ({
            let product = match p {
                Proj::Plain { weight, bias: _ } => (m.un)(Op::Linear(weight), m.at(x.term, i)),
                Proj::Quant { weight, bias: _ } => (m.un)(Op::QMatMul(weight), m.at(x.term, i)),
            };
            let bias = match p {
                Proj::Plain { weight: _, bias } => bias,
                Proj::Quant { weight: _, bias } => bias,
            };
            m.at(p.apply(x).term, i) == (match bias {
                None => product,
                Some(b) => (m.bin)(Op::BroadcastAdd, product, (m.leaf)(Op::Param(b))),
            })
        }),
{
    lemma_at_proj(m, p, x, i);
}

/// Two projections that differ only in their biases: the output of each plus the
/// bias of the other is the same.
pub proof fn law_biases_can_be_exchanged<V>(
    m: Meaning<V>,
    w: Weight,
    b: Weight,
    c: Weight,
    x: Val,
    i: int,
)
    requires
        m.adds_bias(),
        forall|a: V, s: V, t: V|
            #[trigger] (m.bin)(Op::BroadcastAdd, (m.bin)(Op::BroadcastAdd, a, s), t) == (m.bin)(
                Op::BroadcastAdd,
                (m.bin)(Op::BroadcastAdd, a, t),
                s,
            ),
    ensures
        ({
            let (p, q) = (
                Proj::Plain { weight: w, bias: Some(b) },
                Proj::Plain { weight: w, bias: Some(c) },
            );
            (m.bin)(Op::BroadcastAdd, m.at(p.apply(x).term, i), (m.leaf)(Op::Param(c))) == (m.bin)(
                Op::BroadcastAdd,
                m.at(q.apply(x).term, i),
                (m.leaf)(Op::Param(b)),
            )
        }),
{
    lemma_at_proj(m, Proj::Plain { weight: w, bias: Some(b) }, x, i);
    lemma_at_proj(m, Proj::Plain { weight: w, bias: Some(c) }, x, i);
}

/// A layer norm treats positions one by one, with its weight, its bias and an
/// epsilon of `1e-5`.
pub proof fn law_layer_norm_of_each_position<V>(m: Meaning<V>, n: LayerNorm, x: Val, i: int)
    ensures
        m.at(n.apply(x).term, i) == (m.un)(
            Op::LayerNorm(n.weight, n.bias, Scalar::F32(0x3ee4_f8b5_88e3_68f1)),
            m.at(x.term, i),
        ),
        m.len(n.apply(x).term) == m.len(x.term),
        n.apply(x).shape == x.shape,
{
    reveal(un);
}

/// A row over the root of the mean of its squares plus epsilon.
pub proof fn law_rms_of_each_position<V>(m: Meaning<V>, x: Val, eps: Scalar, i: int)
    ensures
        ({
            let v = m.at(x.term, i);
            let square = (m.un)(Op::Sqr, v);
            let mean = (m.un)(Op::MeanKeep(x.shape.last_axis()), square);
            m.at(rms_normalized(x, eps).term, i) == (m.bin)(
                Op::BroadcastDiv,
                v,
                (m.un)(Op::Sqrt, (m.un)(Op::AddScalar(eps), mean)),
            )
        }),
        m.len(rms_normalized(x, eps).term) == m.len(x.term),
{
    let sq = un(Op::Sqr, x);
    let mean = un(Op::MeanKeep(x.shape.last_axis()), sq);
    let shifted = un(Op::AddScalar(eps), mean);
    lemma_at_un(m, Op::Sqr, x, i);
    lemma_at_un(m, Op::MeanKeep(x.shape.last_axis()), sq, i);
    lemma_at_un(m, Op::AddScalar(eps), mean, i);
    lemma_at_un(m, Op::Sqrt, shifted, i);
    lemma_at_bin(m, Op::BroadcastDiv, x, un(Op::Sqrt, shifted), i);
}

/// The norm of a sum, as a composition: the sum in single precision over the root
/// of the mean of its squares, times the weight, or one plus the weight.
pub proof fn law_composed_norm_of_each_position<V>(
    m: Meaning<V>,
    x: Val,
    residual: Val,
    weight: Weight,
    eps: Scalar,
    plus_one: bool,
    i: int,
)
    ensures
        ({
            let sum = (m.bin)(Op::Add, m.at(x.term, i), m.at(residual.term, i));
            let v = (m.un)(Op::ToDType(DType::F32), sum);
            let mean = (m.un)(Op::MeanKeep(x.shape.last_axis()), (m.un)(Op::Sqr, v));
            let root = (m.un)(Op::Sqrt, (m.un)(Op::AddScalar(eps), mean));
            let w = (m.un)(Op::ToDType(DType::F32), (m.leaf)(Op::Param(weight)));
            let scale = if plus_one {
                (m.un)(Op::AddScalar(Scalar::Int(1)), w)
            } else {
                w
            };
            m.at(composed_norm(x, residual, weight, eps, plus_one).term, i) == (m.un)(
                Op::ToDType(x.dtype),
                (m.bin)(Op::BroadcastMul, (m.bin)(Op::BroadcastDiv, v, root), scale),
            )
        }),
{
    let sum = bin(Op::Add, x, residual);
    let to = Op::ToDType(DType::F32);
    let v = un(to, sum);
    let normed = rms_normalized(v, eps);
    let w = un(to, leaf(Op::Param(weight)));
    let one = Op::AddScalar(Scalar::Int(1));
    let scale = if plus_one {
        un(one, w)
    } else {
        w
    };
    assert(sum.dtype == x.dtype && v.shape == x.shape) by {
        reveal(un);
        reveal(bin);
    }
    lemma_at_bin(m, Op::Add, x, residual, i);
    lemma_at_un(m, to, sum, i);
    law_rms_of_each_position(m, v, eps, i);
    lemma_at_un(m, to, leaf(Op::Param(weight)), i);
    lemma_at_un(m, one, w, i);
    lemma_at_bin(m, Op::BroadcastMul, normed, scale, i);
    lemma_at_un(m, Op::ToDType(x.dtype), bin(Op::BroadcastMul, normed, scale), i);
}

/// The residual stream is the sum, whatever the norm that follows: where the
/// kernel's first part is read as that sum, on every device.
pub proof fn law_residual_is_the_sum<V>(
    m: Meaning<V>,
    device: Device,
    x: Val,
    residual: Val,
    weight: Weight,
    eps: Scalar,
    plus_one: bool,
    i: int,
)
    requires
        forall|a: V, b: V, w: V|
            (m.un)(
                Op::Select { dim: 0, index: 0 },
                #[trigger] (m.tri)(Op::FusedAddRmsNorm { eps, plus_one }, a, b, w),
            ) == (m.bin)(Op::Add, a, b),
    ensures
        m.at(residual_sum(device, x, residual, weight, eps, plus_one).term, i) == (m.bin)(
            Op::Add,
            m.at(x.term, i),
            m.at(residual.term, i),
        ),
{
    let op = Op::FusedAddRmsNorm { eps, plus_one };
    let w = leaf(Op::Param(weight));
    lemma_at_bin(m, Op::Add, x, residual, i);
    lemma_at_tri(m, op, x, residual, w, i);
    lemma_at_un(m, Op::Select { dim: 0, index: 0 }, tri(op, x, residual, w), i);
}

/// What a norm gives on `v`: in single precision, over the root of the mean of its
/// squares, times the weight, or one plus the weight, and back.
pub open spec fn normed_sum<V>(
    m: Meaning<V>,
    d: DType,
    axis: usize,
    weight: V,
    eps: Scalar,
    plus_one: bool,
    v: V,
) -> V {
    let v = (m.un)(Op::ToDType(DType::F32), v);
    let mean = (m.un)(Op::MeanKeep(axis), (m.un)(Op::Sqr, v));
    let root = (m.un)(Op::Sqrt, (m.un)(Op::AddScalar(eps), mean));
    let w = (m.un)(Op::ToDType(DType::F32), weight);
    let scale = if plus_one {
        (m.un)(Op::AddScalar(Scalar::Int(1)), w)
    } else {
        w
    };
    (m.un)(
        Op::ToDType(d),
        (m.bin)(Op::BroadcastMul, (m.bin)(Op::BroadcastDiv, v, root), scale),
    )
}

impl<V> Meaning<V> {
    /// The kernel that adds and norms gives the sum, and the norm of it, of values of
    /// type `d` along `axis`.
    pub open spec fn kernel_norms(
        self,
        d: DType,
        axis: usize,
        eps: Scalar,
        plus_one: bool,
    ) -> bool {
        forall|a: V, b: V, w: V|
            {
                let both = #[trigger] (self.tri)(Op::FusedAddRmsNorm { eps, plus_one }, a, b, w);
                let sum = (self.bin)(Op::Add, a, b);
                &&& (self.un)(Op::Select { dim: 0, index: 0 }, both) == sum
                &&& (self.un)(Op::Select { dim: 0, index: 1 }, both) == normed_sum(
                    self,
                    d,
                    axis,
                    w,
                    eps,
                    plus_one,
                    sum,
                )
            }
    }

    /// The kernel on packed halves gives the activated first half times the second.
    pub open spec fn kernel_gates(self, act: SwigluAct) -> bool {
        let op = if act == SwigluAct::Silu {
            Op::Silu
        } else {
            Op::Gelu
        };
        forall|v: V|
            #[trigger] (self.un)(Op::FusedSwiglu(act), v) == (self.bin)(
                Op::Mul,
                (self.un)(op, (self.un)(Op::Half { index: 0 }, v)),
                (self.un)(Op::Half { index: 1 }, v),
            )
    }
}

/// Where the kernel gives what it is for, the residual stream is the sum and its
/// norm is the norm of the sum, on every device.
pub proof fn law_residual_and_its_norm<V>(
    m: Meaning<V>,
    device: Device,
    x: Val,
    residual: Val,
    weight: Weight,
    eps: Scalar,
    plus_one: bool,
    i: int,
)
    requires
        m.kernel_norms(x.dtype, x.shape.last_axis(), eps, plus_one),
    ensures
        ({
            let sum = (m.bin)(Op::Add, m.at(x.term, i), m.at(residual.term, i));
            &&& m.at(residual_sum(device, x, residual, weight, eps, plus_one).term, i) == sum
            &&& m.at(residual_norm(device, x, residual, weight, eps, plus_one).term, i)
                == normed_sum(
                m,
                x.dtype,
                x.shape.last_axis(),
                (m.leaf)(Op::Param(weight)),
                eps,
                plus_one,
                sum,
            )
        }),
{
    let op = Op::FusedAddRmsNorm { eps, plus_one };
    let w = leaf(Op::Param(weight));
    lemma_at_bin(m, Op::Add, x, residual, i);
    lemma_at_tri(m, op, x, residual, w, i);
    lemma_at_un(m, Op::Select { dim: 0, index: 0 }, tri(op, x, residual, w), i);
    lemma_at_un(m, Op::Select { dim: 0, index: 1 }, tri(op, x, residual, w), i);
    law_composed_norm_of_each_position(m, x, residual, weight, eps, plus_one, i);
    let both = (m.tri)(op, m.at(x.term, i), m.at(residual.term, i), (m.leaf)(Op::Param(weight)));
    assert(both == both);
}

/// The activated first half of a row times its second half, on every device, where the
/// kernel gives what it is for.
pub proof fn law_gated_halves_of_each_position<V>(
    m: Meaning<V>,
    device: Device,
    x: Val,
    act: SwigluAct,
    i: int,
)
    requires
        m.kernel_gates(act),
    ensures
        m.at(swiglu(device, x, act).term, i) == (m.bin)(
            Op::Mul,
            (m.un)(
                if act == SwigluAct::Silu {
                    Op::Silu
                } else {
                    Op::Gelu
                },
                (m.un)(Op::Half { index: 0 }, m.at(x.term, i)),
            ),
            (m.un)(Op::Half { index: 1 }, m.at(x.term, i)),
        ),
{
    let op = if act == SwigluAct::Silu {
        Op::Silu
    } else {
        Op::Gelu
    };
    let (g, u) = (un(Op::Half { index: 0 }, x), un(Op::Half { index: 1 }, x));
    lemma_at_un(m, Op::FusedSwiglu(act), x, i);
    lemma_at_un(m, Op::Half { index: 0 }, x, i);
    lemma_at_un(m, Op::Half { index: 1 }, x, i);
    lemma_at_un(m, op, g, i);
    lemma_at_bin(m, Op::Mul, un(op, g), u, i);
}

/// The mean by softmax of what a query sees: the items of a window, and nothing
/// else.
pub proof fn lemma_listens<V>(
    m: Meaning<V>,
    to: Option<DType>,
    scores: Val,
    v: Val,
    i: int,
    item: spec_fn(int) -> (V, V),
    lo: int,
    hi: int,
)
    requires
        m.masks(),
        0 <= lo <= hi <= m.len(v.term),
        forall|j: int|
            0 <= j < m.len(v.term) ==> (if lo <= j < hi {
                (m.cell_at(scores.term, i, j), #[trigger] m.at(v.term, j)) == item(j)
            } else {
                blocked_score(m, m.cell_at(scores.term, i, j))
            }),
    ensures
        m.at(attended(to, scores, v).term, i) == (m.mean)(m.taken(item, lo, hi - lo, m.nothing)),
        m.len(attended(to, scores, v).term) == m.len(scores.term),
{
    assert forall|j: int| 0 <= j < m.len(v.term) implies #[trigger] shows(
        m,
        scores,
        v,
        i,
        j,
        item,
        (lo, hi),
    ) by {
        assert(m.at(v.term, j) == m.at(v.term, j));
    }
    lemma_sees(m, to, scores, v, i, item, (lo, hi));
    let probs = un(Op::SoftmaxLast, scores);
    lemma_un_extent(m, Op::SoftmaxLast, scores);
    if let Some(d) = to {
        lemma_un_extent(m, Op::ToDType(d), probs);
        lemma_bin_extent(m, Op::MatMul, un(Op::ToDType(d), probs), v);
    } else {
        lemma_bin_extent(m, Op::MatMul, probs, v);
    }
}

/// A score under the causal mask of `seq` queries at the end of `total` keys.
pub proof fn lemma_causal_score<V>(
    m: Meaning<V>,
    raw: Val,
    d: DType,
    seq: usize,
    total: usize,
    i: int,
    j: int,
)
    requires
        m.masks(),
        0 <= i < seq <= total,
        0 <= j < total,
    ensures
        ({
            let scores = bin(Op::BroadcastAdd, raw, un(Op::ToDType(d), causal(seq, total)));
            if j <= i + (total - seq) {
                m.cell_at(scores.term, i, j) == m.cell_at(raw.term, i, j)
            } else {
                blocked_score(m, m.cell_at(scores.term, i, j))
            }
        }),
{
    let cells = mask_val(seq, total, chunk_cells(seq, total));
    let wide = un(Op::Reshape(d4(1, 1, seq, total)), cells);
    lemma_causal_cell(seq, total, i, j);
    lemma_cell_un(m, Op::Reshape(d4(1, 1, seq, total)), cells, i, j);
    lemma_cell_un(m, Op::ToDType(d), wide, i, j);
    lemma_cell_bin(m, Op::BroadcastAdd, raw, un(Op::ToDType(d), wide), i, j);
    lemma_cell_mask(m, seq, total, chunk_cells(seq, total), i, j);
}

} // verus!
