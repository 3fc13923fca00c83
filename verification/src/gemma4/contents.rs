//! What norms, feed-forward blocks, experts and layers do to the contents of a
//! position.
use vstd::prelude::*;

use crate::contents::{
    law_gated_halves_of_each_position, law_residual_and_its_norm, law_rms_of_each_position,
    lemma_at_bin, lemma_at_proj, lemma_at_tri, lemma_at_un, normed_sum,
};
use crate::dtype::{Activation, DType, Device};
use crate::error::Error;
use crate::fused::{residual_norm, rms_normalized, swiglu, SwigluAct};
use crate::gemma4::alike::lemma_folded_hits;
use crate::gemma4::context::{LayerKv, Shared};
use crate::gemma4::layer::{DecoderLayer, ModeVal};
use crate::gemma4::model::{slice_of, Failure, Flow, Next, Ran, TaskVal, TextModel};
use crate::gemma4::moe::{ExpertWeights, Experts, Mlp, MoeBlock, Router};
use crate::gemma4::norm::{v_normed, RmsNorm, RotaryEmbedding};
use crate::mixture::{
    first_choices, lemma_added_rows, lemma_choices_ends, lemma_choices_next, summed,
};
use crate::positions::{
    counted_from, lemma_laid_out, lemma_looked_up, sideways, softmax_of, Meaning,
};
use crate::gemma4::rewind::lemma_rows_from;
use crate::routing::{hits, lemma_hits_tokens, plan_within, token_ids};
use crate::shape::{d1, d2, d3, d4, sat_product, Shape};
use crate::tape::{
    bin, gates_val, ids_val, leaf, pick_val, tri, un, Buf, Bufs, GateRule, Op, Scalar, Val, Weight,
};

verus! {

/// What a norm gives on `v`, a row of a value of type `d` and shape `s`: `v` over the
/// root of the mean of its squares plus epsilon, times the stored weight.
pub open spec fn normed_row<V>(m: Meaning<V>, n: RmsNorm, d: DType, s: Shape, v: V) -> V {
    let inner = if d == DType::F16 || d == DType::BF16 {
        DType::F32
    } else {
        d
    };
    let v = (m.un)(Op::ToDType(inner), v);
    let sum = (m.un)(Op::SumKeep(s.last_axis()), (m.un)(Op::Sqr, v));
    let mean = (m.un)(Op::DivScalar(Scalar::Int(s.last())), sum);
    let root = (m.un)(Op::Sqrt, (m.un)(Op::AddScalar(Scalar::F64(n.eps)), mean));
    (m.bin)(
        Op::BroadcastMul,
        (m.un)(Op::ToDType(d), (m.bin)(Op::BroadcastDiv, v, root)),
        (m.leaf)(Op::Param(n.weight)),
    )
}

/// A norm treats positions one by one.
pub proof fn law_norm_of_each_position<V>(m: Meaning<V>, n: RmsNorm, x: Val, i: int)
    ensures
        m.at(n.apply(x).term, i) == normed_row(m, n, x.dtype, x.shape, m.at(x.term, i)),
        m.len(n.apply(x).term) == m.len(x.term),
        n.apply(x).shape == x.shape && n.apply(x).dtype == x.dtype,
        !softmax_of(n.apply(x).term),
{
    let inner = if x.dtype == DType::F16 || x.dtype == DType::BF16 {
        DType::F32
    } else {
        x.dtype
    };
    let v = un(Op::ToDType(inner), x);
    let axis = v.shape.last_axis();
    let sq = un(Op::Sqr, v);
    let sum = un(Op::SumKeep(axis), sq);
    let mean = un(Op::DivScalar(Scalar::Int(x.shape.last())), sum);
    let plus = un(Op::AddScalar(Scalar::F64(n.eps)), mean);
    let root = un(Op::Sqrt, plus);
    let normed = bin(Op::BroadcastDiv, v, root);
    let back = un(Op::ToDType(x.dtype), normed);
    let w = leaf(Op::Param(n.weight));
    lemma_at_un(m, Op::ToDType(inner), x, i);
    lemma_at_un(m, Op::Sqr, v, i);
    lemma_at_un(m, Op::SumKeep(axis), sq, i);
    lemma_at_un(m, Op::DivScalar(Scalar::Int(x.shape.last())), sum, i);
    lemma_at_un(m, Op::AddScalar(Scalar::F64(n.eps)), mean, i);
    lemma_at_un(m, Op::Sqrt, plus, i);
    lemma_at_bin(m, Op::BroadcastDiv, v, root, i);
    lemma_at_un(m, Op::ToDType(x.dtype), normed, i);
    lemma_at_bin(m, Op::BroadcastMul, back, w, i);
    reveal(un);
    reveal(bin);
}

/// The norm without weights, in single precision, of a row of `v`.
pub proof fn law_plain_norm_of_each_position<V>(m: Meaning<V>, v: Val, eps: u64, i: int)
    ensures
        ({
            let w = (m.un)(Op::ToDType(DType::F32), m.at(v.term, i));
            let mean = (m.un)(Op::MeanKeep(v.shape.last_axis()), (m.un)(Op::Sqr, w));
            let root = (m.un)(Op::Sqrt, (m.un)(Op::AddScalar(Scalar::F64(eps)), mean));
            m.at(v_normed(v, eps).term, i) == (m.un)(
                Op::ToDType(v.dtype),
                (m.bin)(Op::BroadcastDiv, w, root),
            )
        }),
        m.len(v_normed(v, eps).term) == m.len(v.term),
        v_normed(v, eps).shape == v.shape && v_normed(v, eps).dtype == v.dtype,
{
    let w = un(Op::ToDType(DType::F32), v);
    assert(w.shape == v.shape) by {
        reveal(un);
    }
    lemma_at_un(m, Op::ToDType(DType::F32), v, i);
    law_rms_of_each_position(m, w, Scalar::F64(eps), i);
    lemma_at_un(m, Op::ToDType(v.dtype), rms_normalized(w, Scalar::F64(eps)), i);
    reveal(un);
    reveal(bin);
}

/// A head is rotated by the row of its own position: counted from `offset`, or from
/// the position that a buffer holds.
pub proof fn law_rotation_follows_position<V>(
    m: Meaning<V>,
    r: RotaryEmbedding,
    x: Val,
    offset: usize,
    len: usize,
    idx: Val,
    i: int,
)
    ensures
        m.at(r.at_offset(x, offset, len).term, i) == (m.tri)(
            Op::Rope,
            m.at(x.term, i),
            (m.row)(r.cos, offset + i),
            (m.row)(r.sin, offset + i),
        ),
        m.len(r.at_offset(x, offset, len).term) == m.len(x.term),
        counted_from(idx.term) matches Some(n) ==> m.at(r.at_rows(x, idx).term, i) == (m.tri)(
            Op::Rope,
            m.at(x.term, i),
            (m.row)(r.cos, n + i),
            (m.row)(r.sin, n + i),
        ),
        m.len(r.at_rows(x, idx).term) == m.len(x.term),
{
    let rows = Op::Narrow { dim: 0, start: offset, len };
    let (c, s) = (un(rows, leaf(Op::Param(r.cos))), un(rows, leaf(Op::Param(r.sin))));
    lemma_looked_up(m, r.cos, offset, len, i);
    lemma_looked_up(m, r.sin, offset, len, i);
    lemma_at_tri(m, Op::Rope, x, c, s, i);
    let (c, s) = (
        bin(Op::IndexSelect(0), leaf(Op::Param(r.cos)), idx),
        bin(Op::IndexSelect(0), leaf(Op::Param(r.sin)), idx),
    );
    lemma_at_tri(m, Op::Rope, x, c, s, i);
    if counted_from(idx.term) is Some {
        lemma_rows_from(m, r.cos, idx, i);
        lemma_rows_from(m, r.sin, idx, i);
    }
}

/// A gated block treats positions one by one: its gating projection, activated,
/// times the other projection, projected back.
pub proof fn law_gated_block_of_each_position<V>(m: Meaning<V>, f: Mlp, x: Val, i: int)
    ensures
        ({
            let v = m.at(x.term, i);
            m.at(f.apply(x).term, i) == m.projected(
                f.down_proj,
                (m.bin)(
                    Op::Mul,
                    (m.un)(Op::Act(f.act_fn), m.projected(f.gate_proj, v)),
                    m.projected(f.up_proj, v),
                ),
            )
        }),
{
    let (g, u) = (f.gate_proj.apply(x), f.up_proj.apply(x));
    let act = un(Op::Act(f.act_fn), g);
    lemma_at_proj(m, f.gate_proj, x, i);
    lemma_at_proj(m, f.up_proj, x, i);
    lemma_at_un(m, Op::Act(f.act_fn), g, i);
    lemma_at_bin(m, Op::Mul, act, u, i);
    lemma_at_proj(m, f.down_proj, bin(Op::Mul, act, u), i);
}

/// The probabilities of a token: its row normed without weights, times the router's
/// scale over the root of the width, projected, and the softmax of that.
pub proof fn law_router_scores_each_token<V>(m: Meaning<V>, f: Router, x: Val, t: int)
    ensures
        ({
            let w = (m.un)(Op::ToDType(DType::F32), m.at(x.term, t));
            let mean = (m.un)(Op::MeanKeep(x.shape.last_axis()), (m.un)(Op::Sqr, w));
            let root = (m.un)(Op::Sqrt, (m.un)(Op::AddScalar(Scalar::F64(f.eps)), mean));
            let normed = (m.un)(Op::ToDType(x.dtype), (m.bin)(Op::BroadcastDiv, w, root));
            let scaled = (m.un)(
                Op::MulScalar(Scalar::RecipSqrt(f.hidden_size)),
                (m.bin)(Op::BroadcastMul, normed, (m.leaf)(Op::Param(f.scale))),
            );
            m.at(f.probs(x).term, t) == (m.un)(
                Op::SoftmaxLast,
                (m.un)(Op::ToDType(DType::F32), m.projected(f.proj, scaled)),
            )
        }),
{
    let n = v_normed(x, f.eps);
    let w = leaf(Op::Param(f.scale));
    let s = bin(Op::BroadcastMul, n, w);
    let by = Op::MulScalar(Scalar::RecipSqrt(f.hidden_size));
    let p = f.proj.apply(un(by, s));
    law_plain_norm_of_each_position(m, x, f.eps, t);
    lemma_at_bin(m, Op::BroadcastMul, n, w, t);
    lemma_at_un(m, by, s, t);
    lemma_at_proj(m, f.proj, un(by, s), t);
    lemma_at_un(m, Op::ToDType(DType::F32), p, t);
    lemma_at_un(m, Op::SoftmaxLast, un(Op::ToDType(DType::F32), p), t);
}

/// Where the device chooses, a token gets the first `top_k` of its probabilities in
/// falling order, each over their sum, times the scale of its expert.
pub proof fn law_device_choice_of_each_token<V>(m: Meaning<V>, f: Router, x: Val, t: int)
    requires
        !sideways(f.probs(x).term),
    ensures
        ({
            let p = m.at(f.probs(x).term, t);
            let ids = (m.un)(
                Op::Narrow { dim: 1, start: 0, len: f.top_k },
                (m.un)(Op::ArgSortDescending, p),
            );
            let top = (m.bin)(Op::Gather(1), p, ids);
            let share = (m.bin)(Op::BroadcastDiv, top, (m.un)(Op::SumKeep(1), top));
            let scale = (m.bin)(
                Op::IndexSelect(0),
                (m.leaf)(Op::Param(f.per_expert_scale)),
                ids,
            );
            &&& m.at(f.gpu_ids(x).term, t) == ids
            &&& m.at(f.gpu_weights(x).term, t) == (m.bin)(Op::Mul, share, scale)
        }),
{
    let p = f.probs(x);
    let sorted = un(Op::ArgSortDescending, p);
    let ids = f.gpu_ids(x);
    let top = bin(Op::Gather(1), p, ids);
    let total = un(Op::SumKeep(1), top);
    let n = ids.shape.d0;
    let flat = un(Op::Reshape(d1(sat_product(n, f.top_k))), ids);
    let table = leaf(Op::Param(f.per_expert_scale));
    let picked = bin(Op::IndexSelect(0), table, flat);
    let back = Op::Reshape(d2(n, f.top_k));
    lemma_at_un(m, Op::ArgSortDescending, p, t);
    assert(m.at(ids.term, t) == (m.un)(
        Op::Narrow { dim: 1, start: 0, len: f.top_k },
        m.at(sorted.term, t),
    )) by {
        reveal(un);
    }
    lemma_at_bin(m, Op::Gather(1), p, ids, t);
    lemma_at_un(m, Op::SumKeep(1), top, t);
    lemma_at_bin(m, Op::BroadcastDiv, top, total, t);
    lemma_laid_out(m, Op::Reshape(d1(sat_product(n, f.top_k))), ids, t);
    assert(m.at(picked.term, t) == (m.bin)(
        Op::IndexSelect(0),
        m.at(table.term, t),
        m.at(flat.term, t),
    )) by {
        reveal(un);
        reveal(bin);
    }
    lemma_laid_out(m, back, picked, t);
    lemma_at_bin(m, Op::Mul, bin(Op::BroadcastDiv, top, total), un(back, picked), t);
}

/// What expert `e` gives on a row: the activated half of its first product times
/// the other half, and the second product of that.
pub open spec fn expert_row<V>(m: Meaning<V>, f: Experts, e: usize, v: V) -> V {
    let first = match f.weights {
        ExpertWeights::Plain { gate_up_t, down_t } => (m.bin)(
            Op::MatMul,
            v,
            (m.un)(Op::Select { dim: 0, index: e }, (m.leaf)(Op::Param(gate_up_t))),
        ),
        ExpertWeights::Quant { gate_ups, downs } => (m.un)(Op::QMatMul(gate_ups[e as int]), v),
        ExpertWeights::QuantFused { gate_up, down } => v,
    };
    let hidden = (m.bin)(
        Op::Mul,
        (m.un)(Op::Act(f.act_fn), (m.un)(Op::Half { index: 0 }, first)),
        (m.un)(Op::Half { index: 1 }, first),
    );
    match f.weights {
        ExpertWeights::Plain { gate_up_t, down_t } => (m.bin)(
            Op::MatMul,
            hidden,
            (m.un)(Op::Select { dim: 0, index: e }, (m.leaf)(Op::Param(down_t))),
        ),
        ExpertWeights::Quant { gate_ups, downs } => (m.un)(Op::QMatMul(downs[e as int]), hidden),
        ExpertWeights::QuantFused { gate_up, down } => hidden,
    }
}

/// An expert treats rows one by one.
pub proof fn law_expert_of_each_row<V>(m: Meaning<V>, f: Experts, e: usize, x: Val, i: int)
    requires
        !softmax_of(x.term),
    ensures
        m.at(f.expert(e, x).term, i) == expert_row(m, f, e, m.at(x.term, i)),
{
    let pick = Op::Select { dim: 0, index: e };
    let first = match f.weights {
        ExpertWeights::Plain { gate_up_t, down_t } => bin(
            Op::MatMul,
            x,
            un(pick, leaf(Op::Param(gate_up_t))),
        ),
        ExpertWeights::Quant { gate_ups, downs } => un(Op::QMatMul(gate_ups[e as int]), x),
        ExpertWeights::QuantFused { gate_up, down } => x,
    };
    let (h0, h1) = (Op::Half { index: 0 }, Op::Half { index: 1 });
    let act = un(Op::Act(f.act_fn), un(h0, first));
    let hidden = bin(Op::Mul, act, un(h1, first));
    match f.weights {
        ExpertWeights::Plain { gate_up_t, down_t } => {
            let (w, d) = (leaf(Op::Param(gate_up_t)), leaf(Op::Param(down_t)));
            lemma_at_un(m, pick, w, i);
            lemma_at_un(m, pick, d, i);
            assert(m.at(first.term, i) == (m.bin)(
                Op::MatMul,
                m.at(x.term, i),
                m.at(un(pick, w).term, i),
            )) by {
                reveal(bin);
            }
            let out = bin(Op::MatMul, hidden, un(pick, d));
            assert(m.at(out.term, i) == (m.bin)(
                Op::MatMul,
                m.at(hidden.term, i),
                m.at(un(pick, d).term, i),
            )) by {
                reveal(bin);
            }
        },
        ExpertWeights::Quant { gate_ups, downs } => {
            lemma_at_un(m, Op::QMatMul(gate_ups[e as int]), x, i);
            lemma_at_un(m, Op::QMatMul(downs[e as int]), hidden, i);
        },
        ExpertWeights::QuantFused { gate_up, down } => {},
    }
    lemma_at_un(m, h0, first, i);
    lemma_at_un(m, h1, first, i);
    lemma_at_un(m, Op::Act(f.act_fn), un(h0, first), i);
    lemma_at_bin(m, Op::Mul, act, un(h1, first), i);
}

/// The sum over the first `e` experts at token `t`.
proof fn lemma_combined_at<V>(
    m: Meaning<V>,
    f: Experts,
    x: Val,
    gates: Val,
    plan: Seq<Seq<usize>>,
    e: int,
    t: int,
    part: spec_fn(int) -> V,
)
    requires
        m.sums(),
        0 <= e <= f.num_experts,
        0 <= t < plan.len() < 0x1_0000_0000,
        forall|i: int| 0 <= i < plan.len() ==> #[trigger] plan[i].len() <= usize::MAX,
        plan_within(plan, f.num_experts as int),
        forall|j: int|
            0 <= j < plan[t].len() ==> #[trigger] part(j) == (m.bin)(
                Op::BroadcastMul,
                expert_row(m, f, plan[t][j], m.at(x.term, t)),
                (m.un)(Op::ToDType(x.dtype), (m.pick)(j as usize, m.at(gates.term, t))),
            ),
    ensures
        m.at(f.combined(x, gates, plan, e).term, t) == first_choices(
            m,
            (m.leaf)(Op::Zeros { shape: d1(x.shape.d0), dtype: DType::F32 }),
            plan[t],
            e,
            part,
        ),
        f.combined(x, gates, plan, e).dtype == x.dtype,
    decreases e,
{
    let base = (m.leaf)(Op::Zeros { shape: d1(x.shape.d0), dtype: DType::F32 });
    let n = plan.len() as int;
    if e <= 0 {
        assert forall|j: int| 0 <= j < plan[t].len() implies #[trigger] plan[t][j]
            < f.num_experts by {}
        lemma_choices_ends(m, base, plan[t], f.num_experts as int, part);
    } else {
        let k = (e - 1) as usize;
        lemma_combined_at(m, f, x, gates, plan, e - 1, t, part);
        let before = f.combined(x, gates, plan, e - 1);
        let group = hits(plan, k, n);
        let val = |j: usize|
            (m.bin)(
                Op::BroadcastMul,
                expert_row(m, f, k, m.at(x.term, t)),
                (m.un)(Op::ToDType(x.dtype), (m.pick)(j, m.at(gates.term, t))),
            );
        lemma_folded_hits(m, m.at(before.term, t), plan, k, t, val, n);
        assert forall|j: int| 0 <= j < plan[t].len() && plan[t][j] == k implies #[trigger] part(j)
            == val(j as usize) by {}
        lemma_choices_next(m, base, plan[t], t as usize, k, val, part);
        if group.len() > 0 {
            let ids = ids_val(token_ids(group));
            let rows = bin(Op::IndexSelect(0), x, ids);
            let y = f.expert(k, rows);
            let w = un(Op::ToDType(x.dtype), pick_val(gates, group));
            let c = bin(Op::BroadcastMul, y, w);
            assert forall|i: int| 0 <= i < group.len() implies (#[trigger] group[i]).0
                < 0x1_0000_0000 by {
                assert(group.contains(group[i]));
                lemma_hits_tokens(plan, k, n, group[i]);
            }
            assert forall|i: int| 0 <= i < group.len() && (#[trigger] group[i]).0 == t implies m.at(
                c.term,
                i,
            ) == val(group[i].1) by {
                assert(token_ids(group)[i] as int == t);
                assert(m.at(rows.term, i) == m.at(x.term, t) && !softmax_of(rows.term)) by {
                    reveal(bin);
                }
                law_expert_of_each_row(m, f, k, rows, i);
                lemma_at_un(m, Op::ToDType(x.dtype), pick_val(gates, group), i);
                lemma_at_bin(m, Op::BroadcastMul, y, w, i);
            }
            lemma_added_rows(m, before, group, c, t, val, group.len() as int);
            reveal(tri);
        }
    }
}

/// What the block gives a token: the norm of what the dense block gave, plus the
/// norm of the sum, over the experts that were chosen for it, of what each gives on
/// the norm of the residual, times its weight.
pub proof fn law_token_gets_its_experts_beside_the_dense_block<V>(
    m: Meaning<V>,
    f: MoeBlock,
    mlp_out: Val,
    residual: Val,
    probs: Val,
    plan: Seq<Seq<usize>>,
    t: int,
    part: spec_fn(int) -> V,
)
    requires
        m.sums(),
        0 <= t < plan.len() < 0x1_0000_0000,
        forall|i: int| 0 <= i < plan.len() ==> #[trigger] plan[i].len() <= usize::MAX,
        plan_within(plan, f.experts.num_experts as int),
        ({
            let rows = sat_product(residual.shape.d0, residual.shape.d1);
            let d = residual.dtype;
            let v = normed_row(
                m,
                f.pre_feedforward_layernorm_2,
                d,
                d2(rows, residual.shape.d2),
                m.at(residual.term, t),
            );
            let rule = GateRule::Scaled(f.router.per_expert_scale);
            let gates = (m.gates)(rule, plan[t], m.at(probs.term, t));
            forall|j: int|
                0 <= j < plan[t].len() ==> #[trigger] part(j) == (m.bin)(
                    Op::BroadcastMul,
                    expert_row(m, f.experts, plan[t][j], v),
                    (m.un)(Op::ToDType(d), (m.pick)(j as usize, gates)),
                )
        }),
    ensures
        ({
            let s = residual.shape;
            let rows = sat_product(s.d0, s.d1);
            let zeros = (m.leaf)(Op::Zeros { shape: d1(rows), dtype: DType::F32 });
            m.at(f.routed_out(mlp_out, residual, probs, plan).term, t) == (m.bin)(
                Op::Add,
                normed_row(
                    m,
                    f.post_feedforward_layernorm_1,
                    mlp_out.dtype,
                    mlp_out.shape,
                    m.at(mlp_out.term, t),
                ),
                normed_row(
                    m,
                    f.post_feedforward_layernorm_2,
                    residual.dtype,
                    d3(s.d0, s.d1, s.d2),
                    summed(m, zeros, part, plan[t].len() as int),
                ),
            )
        }),
{
    let s = residual.shape;
    let rows = sat_product(s.d0, s.d1);
    let flat = MoeBlock::flat(residual);
    let x = f.pre_feedforward_layernorm_2.apply(flat);
    let gates = gates_val(GateRule::Scaled(f.router.per_expert_scale), probs, plan);
    let n = f.experts.num_experts as int;
    let y = f.experts.combined(x, gates, plan, n);
    let base = (m.leaf)(Op::Zeros { shape: d1(rows), dtype: DType::F32 });
    lemma_laid_out(m, Op::Reshape(d2(rows, s.d2)), residual, t);
    assert(flat.dtype == residual.dtype && flat.shape == d2(rows, s.d2)) by {
        reveal(un);
    }
    law_norm_of_each_position(m, f.pre_feedforward_layernorm_2, flat, t);
    lemma_combined_at(m, f.experts, x, gates, plan, n, t, part);
    assert forall|j: int| 0 <= j < plan[t].len() implies #[trigger] plan[t][j] < n by {}
    lemma_choices_ends(m, base, plan[t], n, part);
    let shape = d3(s.d0, s.d1, s.d2);
    let back = un(Op::Reshape(shape), y);
    assert(back.dtype == residual.dtype && back.shape == shape) by {
        reveal(un);
    }
    lemma_laid_out(m, Op::Reshape(shape), y, t);
    law_norm_of_each_position(m, f.post_feedforward_layernorm_1, mlp_out, t);
    law_norm_of_each_position(m, f.post_feedforward_layernorm_2, back, t);
    lemma_at_bin(
        m,
        Op::Add,
        f.post_feedforward_layernorm_1.apply(mlp_out),
        f.post_feedforward_layernorm_2.apply(back),
        t,
    );
}

/// The layer norms what attention gave on the norm of its input and adds it to the
/// input; the dense block works on the norm of that sum.
pub proof fn law_layer_adds_normed_attention<V>(
    m: Meaning<V>,
    l: DecoderLayer,
    device: Device,
    mode: ModeVal,
    x: Val,
    kv: LayerKv,
    kept: (Seq<Buf>, Bufs),
    shared: Shared,
    i: int,
)
    requires
        l.halfway(device, mode, x, kv, kept.0, kept.1, shared) is Ok,
        ({
            let y = l.input_layernorm.apply(x);
            let a = l.attended(device, mode, y, kv, kept.0, kept.1, shared)->Ok_0.out;
            let n = l.pre_feedforward_layernorm;
            m.kernel_norms(a.dtype, a.shape.last_axis(), Scalar::F32(n.eps), false)
        }),
    ensures
        ({
            let h = l.halfway(device, mode, x, kv, kept.0, kept.1, shared)->Ok_0;
            let y = l.input_layernorm.apply(x);
            let heard = l.attended(device, mode, y, kv, kept.0, kept.1, shared);
            let a = heard->Ok_0.out;
            let sum = (m.bin)(
                Op::Add,
                normed_row(m, l.post_attention_layernorm, a.dtype, a.shape, m.at(a.term, i)),
                m.at(x.term, i),
            );
            let n = l.pre_feedforward_layernorm;
            let v = normed_sum(
                m,
                a.dtype,
                a.shape.last_axis(),
                (m.leaf)(Op::Param(n.weight)),
                Scalar::F32(n.eps),
                false,
                sum,
            );
            let f = l.mlp;
            &&& m.at(h.residual.term, i) == sum
            &&& m.at(h.mlp_out.term, i) == m.projected(
                f.down_proj,
                (m.bin)(
                    Op::Mul,
                    (m.un)(Op::Act(f.act_fn), m.projected(f.gate_proj, v)),
                    m.projected(f.up_proj, v),
                ),
            )
            &&& l.host_routed() ==> h.probs == Some(l.moe->0.probs(h.residual))
        }),
{
    reveal(DecoderLayer::halfway);
    let y = l.input_layernorm.apply(x);
    let a = l.attended(device, mode, y, kv, kept.0, kept.1, shared)->Ok_0.out;
    let p = l.post_attention_layernorm.apply(a);
    law_norm_of_each_position(m, l.post_attention_layernorm, a, i);
    let n = l.pre_feedforward_layernorm;
    let eps = Scalar::F32(n.eps);
    law_residual_and_its_norm(m, device, p, x, n.weight, eps, false, i);
    law_gated_block_of_each_position(
        m,
        l.mlp,
        residual_norm(device, p, x, n.weight, eps, false),
        i,
    );
}

/// The layer adds the norm of what its feed-forward blocks gave to the residual;
/// where it has an input of its own, the norm of that, gated and projected, is added
/// too; the sum is scaled by the layer's factor, unless that is one.
pub proof fn law_layer_adds_normed_feed_forward<V>(
    m: Meaning<V>,
    l: DecoderLayer,
    device: Device,
    residual: Val,
    mlp_out: Val,
    probs: Option<Val>,
    plan: Seq<Seq<usize>>,
    own: Option<Val>,
    i: int,
)
    requires
        l.finished(device, residual, mlp_out, probs, plan, own) is Ok,
    ensures
        ({
            let mixed = match l.moe {
                None => mlp_out,
                Some(f) => if f.experts.fused() {
                    f.fused_out(device, mlp_out, residual)->Ok_0
                } else {
                    f.routed_out(mlp_out, residual, probs->0, plan)
                },
            };
            let n = l.post_feedforward_layernorm;
            let sum = (m.bin)(
                Op::Add,
                m.at(residual.term, i),
                normed_row(m, n, mixed.dtype, mixed.shape, m.at(mixed.term, i)),
            );
            let all = match (l.per_layer, own) {
                (Some(p), Some(o)) => ({
                    let gate = (m.un)(Op::Act(l.act_fn), m.projected(p.gate, sum));
                    let v = m.projected(
                        p.projection,
                        (m.bin)(Op::Mul, gate, m.at(o.term, i)),
                    );
                    let whole = bin(Op::Add, residual, n.apply(mixed));
                    let like = p.projection.apply(
                        bin(Op::Mul, un(Op::Act(l.act_fn), p.gate.apply(whole)), o),
                    );
                    (m.bin)(Op::Add, sum, normed_row(m, p.norm, like.dtype, like.shape, v))
                }),
                _ => sum,
            };
            m.at(l.finished(device, residual, mlp_out, probs, plan, own)->Ok_0.term, i) == (
            if l.layer_scalar == 0x3ff0_0000_0000_0000 {
                all
            } else {
                (m.un)(Op::MulScalar(Scalar::F64(l.layer_scalar)), all)
            })
        }),
{
    reveal(DecoderLayer::finished);
    let mixed = match l.moe {
        None => mlp_out,
        Some(f) => if f.experts.fused() {
            f.fused_out(device, mlp_out, residual)->Ok_0
        } else {
            f.routed_out(mlp_out, residual, probs->0, plan)
        },
    };
    let n = l.post_feedforward_layernorm;
    let x = bin(Op::Add, residual, n.apply(mixed));
    law_norm_of_each_position(m, n, mixed, i);
    lemma_at_bin(m, Op::Add, residual, n.apply(mixed), i);
    let all = match (l.per_layer, own) {
        (Some(p), Some(o)) => ({
            let act = un(Op::Act(l.act_fn), p.gate.apply(x));
            let q = p.projection.apply(bin(Op::Mul, act, o));
            bin(Op::Add, x, p.norm.apply(q))
        }),
        _ => x,
    };
    if let (Some(p), Some(o)) = (l.per_layer, own) {
        let g = p.gate.apply(x);
        let act = un(Op::Act(l.act_fn), g);
        let q = p.projection.apply(bin(Op::Mul, act, o));
        lemma_at_proj(m, p.gate, x, i);
        lemma_at_un(m, Op::Act(l.act_fn), g, i);
        lemma_at_bin(m, Op::Mul, act, o, i);
        lemma_at_proj(m, p.projection, bin(Op::Mul, act, o), i);
        law_norm_of_each_position(m, p.norm, q, i);
        lemma_at_bin(m, Op::Add, x, p.norm.apply(q), i);
    }
    lemma_at_un(m, Op::MulScalar(Scalar::F64(l.layer_scalar)), all, i);
}

/// A token enters as its embedding times the root of the width.
pub proof fn law_embedding_is_scaled<V>(m: Meaning<V>, t: TextModel, ids: Val, i: int)
    ensures
        m.at(t.embedded(ids).term, i) == (m.un)(
            Op::MulScalar(Scalar::Sqrt(t.hidden_size)),
            (m.un)(Op::ToDType(t.dtype), (m.un)(Op::Embedding(t.embed), m.at(ids.term, i))),
        ),
{
    let e = un(Op::Embedding(t.embed), ids);
    lemma_at_un(m, Op::Embedding(t.embed), ids, i);
    lemma_at_un(m, Op::ToDType(t.dtype), e, i);
    lemma_at_un(
        m,
        Op::MulScalar(Scalar::Sqrt(t.hidden_size)),
        un(Op::ToDType(t.dtype), e),
        i,
    );
}

/// The layers' own inputs of a token: the norm of its projected embedding plus its row
/// of a table of their own, each scaled, over the root of two.
pub proof fn law_layers_get_inputs_of_their_own<V>(
    m: Meaning<V>,
    t: TextModel,
    ids: Val,
    embeds: Val,
    i: int,
)
    requires
        t.per_layer is Some,
        ids.shape.rank == 2,
    ensures
        ({
            let e = t.per_layer->0;
            let dim = t.hidden_size_per_layer_input;
            let looked = (m.un)(
                Op::MulScalar(Scalar::Sqrt(dim)),
                (m.un)(Op::ToDType(t.dtype), (m.un)(Op::Embedding(e.embed), m.at(ids.term, i))),
            );
            let v = (m.un)(
                Op::MulScalar(Scalar::RecipSqrt(t.hidden_size)),
                m.projected(e.proj, m.at(embeds.term, i)),
            );
            let d = e.proj.apply(embeds).dtype;
            let s = d4(ids.shape.d0, ids.shape.d1, t.num_hidden_layers, dim);
            &&& t.per_layer_input(ids, embeds) matches Ok(Some(p))
            &&& m.at(p.term, i) == (m.un)(
                Op::MulScalar(Scalar::RecipSqrt(2)),
                (m.bin)(Op::Add, normed_row(m, e.norm, d, s, v), looked),
            )
        }),
{
    let e = t.per_layer->0;
    let dim = t.hidden_size_per_layer_input;
    let s = d4(ids.shape.d0, ids.shape.d1, t.num_hidden_layers, dim);
    let split = Op::Reshape(s);
    let emb = un(Op::Embedding(e.embed), ids);
    let cast = un(Op::ToDType(t.dtype), emb);
    let up = Op::MulScalar(Scalar::Sqrt(dim));
    lemma_at_un(m, Op::Embedding(e.embed), ids, i);
    lemma_at_un(m, Op::ToDType(t.dtype), emb, i);
    lemma_at_un(m, up, cast, i);
    lemma_laid_out(m, split, un(up, cast), i);
    let q = e.proj.apply(embeds);
    let down = Op::MulScalar(Scalar::RecipSqrt(t.hidden_size));
    lemma_at_proj(m, e.proj, embeds, i);
    lemma_at_un(m, down, q, i);
    lemma_laid_out(m, split, un(down, q), i);
    let shaped = un(split, un(down, q));
    assert(shaped.shape == s && shaped.dtype == q.dtype) by {
        reveal(un);
    }
    law_norm_of_each_position(m, e.norm, shaped, i);
    let both = bin(Op::Add, e.norm.apply(shaped), un(split, un(up, cast)));
    lemma_at_bin(m, Op::Add, e.norm.apply(shaped), un(split, un(up, cast)), i);
    lemma_at_un(m, Op::MulScalar(Scalar::RecipSqrt(2)), both, i);
}

/// The logits of a position: the head on its norm, squeezed by the hyperbolic tangent
/// where there is a cap.
pub proof fn law_logits_of_each_position<V>(m: Meaning<V>, t: TextModel, x: Val, i: int)
    ensures
        ({
            let raw = m.projected(
                t.lm_head,
                normed_row(m, t.norm, x.dtype, x.shape, m.at(x.term, i)),
            );
            m.at(t.logits(x).term, i) == (match t.final_logit_softcapping {
                None => raw,
                Some(c) => (m.un)(
                    Op::MulScalar(Scalar::F64(c)),
                    (m.un)(Op::Tanh, (m.un)(Op::DivScalar(Scalar::F64(c)), raw)),
                ),
            })
        }),
{
    let y = t.norm.apply(x);
    let raw = t.lm_head.apply(y);
    law_norm_of_each_position(m, t.norm, x, i);
    lemma_at_proj(m, t.lm_head, y, i);
    if let Some(c) = t.final_logit_softcapping {
        let by = Op::DivScalar(Scalar::F64(c));
        lemma_at_un(m, by, raw, i);
        lemma_at_un(m, Op::Tanh, un(by, raw), i);
        lemma_at_un(m, Op::MulScalar(Scalar::F64(c)), un(Op::Tanh, un(by, raw)), i);
    }
}

/// What the experts that the device chose give a token: with its row in single
/// precision, the activated half of the first product times the other half, the second
/// product, each expert times its weight, and the sum of that.
pub proof fn law_device_experts_of_each_token<V>(
    m: Meaning<V>,
    f: Experts,
    device: Device,
    x: Val,
    ids: Val,
    weights: Val,
    gate_up: Weight,
    down: Weight,
    t: int,
)
    requires
        f.fused_out(device, x, ids, weights, gate_up, down) is Ok,
        m.kernel_gates(
            if f.act_fn == Activation::Silu {
                SwigluAct::Silu
            } else {
                SwigluAct::GeluTanh
            },
        ),
    ensures
        ({
            let op = if f.act_fn == Activation::Silu {
                Op::Silu
            } else {
                Op::Gelu
            };
            let v = (m.un)(Op::ToDType(DType::F32), m.at(x.term, t));
            let first = (m.bin)(Op::IndexedMoe(gate_up), v, m.at(ids.term, t));
            let hidden = (m.bin)(
                Op::Mul,
                (m.un)(op, (m.un)(Op::Half { index: 0 }, first)),
                (m.un)(Op::Half { index: 1 }, first),
            );
            let out = (m.bin)(Op::IndexedMoe(down), hidden, m.at(ids.term, t));
            let each = (m.bin)(
                Op::BroadcastMul,
                out,
                (m.un)(Op::Unsqueeze(2), m.at(weights.term, t)),
            );
            m.at(f.fused_out(device, x, ids, weights, gate_up, down)->Ok_0.term, t) == (m.un)(
                Op::ToDType(x.dtype),
                (m.un)(Op::Sum(1), each),
            )
        }),
{
    let act = f.fused_act();
    let (wide, deep) = (Op::ToDType(DType::F32), Op::Reshape(d3(x.shape.d0, 1, x.shape.d1)));
    let x32 = un(deep, un(wide, x));
    lemma_at_un(m, wide, x, t);
    lemma_laid_out(m, deep, un(wide, x), t);
    let gu = bin(Op::IndexedMoe(gate_up), x32, ids);
    lemma_at_bin(m, Op::IndexedMoe(gate_up), x32, ids, t);
    law_gated_halves_of_each_position(m, device, gu, act, t);
    let h = swiglu(device, gu, act);
    let dn = bin(Op::IndexedMoe(down), h, ids);
    lemma_at_bin(m, Op::IndexedMoe(down), h, ids, t);
    let up = un(Op::Unsqueeze(2), weights);
    lemma_at_un(m, Op::Unsqueeze(2), weights, t);
    let each = bin(Op::BroadcastMul, dn, up);
    lemma_at_bin(m, Op::BroadcastMul, dn, up, t);
    lemma_at_un(m, Op::Sum(1), each, t);
    lemma_at_un(m, Op::ToDType(x.dtype), un(Op::Sum(1), each), t);
}

/// Where the device routes, a position gets the norm of what the dense block gave plus
/// the norm of what the chosen experts gave on the norm of the residual.
pub proof fn law_device_experts_beside_the_dense_block<V>(
    m: Meaning<V>,
    f: MoeBlock,
    device: Device,
    mlp_out: Val,
    residual: Val,
    y: Val,
    t: int,
)
    requires
        residual.shape.rank == 3,
        ({
            let rows = sat_product(residual.shape.d0, residual.shape.d1);
            let flat = un(Op::Reshape(d2(rows, residual.shape.d2)), residual);
            let x = f.pre_feedforward_layernorm_2.apply(flat);
            let r = f.router;
            &&& f.experts.weights matches ExpertWeights::QuantFused { gate_up, down }
            &&& f.experts.fused_out(
                device,
                x,
                r.gpu_ids(flat),
                r.gpu_weights(flat),
                gate_up,
                down,
            ) == Ok::<Val, Error>(y)
        }),
    ensures
        ({
            let s = residual.shape;
            &&& f.fused_out(device, mlp_out, residual) matches Ok(out)
            &&& m.at(out.term, t) == (m.bin)(
                Op::Add,
                normed_row(
                    m,
                    f.post_feedforward_layernorm_1,
                    mlp_out.dtype,
                    mlp_out.shape,
                    m.at(mlp_out.term, t),
                ),
                normed_row(
                    m,
                    f.post_feedforward_layernorm_2,
                    y.dtype,
                    d3(s.d0, s.d1, s.d2),
                    m.at(y.term, t),
                ),
            )
        }),
{
    let s = residual.shape;
    let shape = d3(s.d0, s.d1, s.d2);
    let back = un(Op::Reshape(shape), y);
    assert(back.dtype == y.dtype && back.shape == shape) by {
        reveal(un);
    }
    lemma_laid_out(m, Op::Reshape(shape), y, t);
    law_norm_of_each_position(m, f.post_feedforward_layernorm_1, mlp_out, t);
    law_norm_of_each_position(m, f.post_feedforward_layernorm_2, back, t);
    lemma_at_bin(
        m,
        Op::Add,
        f.post_feedforward_layernorm_1.apply(mlp_out),
        f.post_feedforward_layernorm_2.apply(back),
        t,
    );
}

/// Where a job ends, its logits are those of the row of the last token: of a pass the
/// last, of a step the only one, of a chunk its last, of a prefill the last of the last
/// chunk, and of a padded one the last that is not padding.
pub proof fn law_logits_come_from_the_last_token(
    t: TextModel,
    device: Device,
    task: TaskVal,
    x: Val,
    bufs: Bufs,
)
    requires
        t.next(device, task, x, bufs) is Done,
        task matches TaskVal::Chunked { ctx, ids, chunk, pos, total } ==> pos <= total,
    ensures
        ({
            let row = match task {
                TaskVal::Forward(seq) => Some(seq - 1),
                TaskVal::Step(_) => None,
                TaskVal::ChunkStep(_, c) => Some(c.chunk - 1),
                TaskVal::Chunked { ctx, ids, chunk, pos, total } => Some(
                    (if chunk < total - pos {
                        chunk as int
                    } else {
                        total - pos
                    }) - 1,
                ),
                TaskVal::Graph { ctx, cctx, padded, at, chunks, total } => Some(
                    cctx.chunk - (padded.len() - total) - 1,
                ),
            };
            let last = match row {
                Some(r) => un(Op::Narrow { dim: 1, start: r as usize, len: 1 }, x),
                None => x,
            };
            t.next(device, task, x, bufs) matches Next::Done(hidden, logits, _) && hidden == x
                && logits == t.logits(last)
        }),
{
    reveal(TextModel::next);
}

/// A model with one layer more does what the model does, and then what the layer does.
pub proof fn law_last_layer_comes_last(
    t: TextModel,
    u: TextModel,
    device: Device,
    mode: ModeVal,
    plis: Option<Val>,
    i: int,
    f: Flow,
)
    requires
        u.layers.len() == t.layers.len() + 1,
        forall|j: int| 0 <= j < t.layers.len() ==> u.layers[j] == #[trigger] t.layers[j],
        0 <= i <= t.layers.len(),
    ensures
        u.run(device, mode, plis, i, f) == (match t.run(device, mode, plis, i, f) {
            Ran::Through(g) => ({
                let k = t.layers.len() as int;
                let l = u.layers[k];
                match l.halfway(device, mode, g.x, g.kv[k], g.buffers, g.bufs, g.shared) {
                    Err(e) => Ran::Failed(
                        Failure {
                            error: e.error,
                            bufs: e.bufs,
                            buffers: e.buffers,
                            kv: g.kv.update(k, e.kv),
                        },
                    ),
                    Ok(h) => ({
                        let kv = g.kv.update(k, h.kv);
                        let own = match plis {
                            Some(p) => Some(un(Op::Select { dim: 2, index: k as usize }, p)),
                            None => None,
                        };
                        let done = l.finished(
                            device,
                            h.residual,
                            h.mlp_out,
                            h.probs,
                            Seq::empty(),
                            own,
                        );
                        if l.host_routed() {
                            Ran::Paused(k, h, kv)
                        } else {
                            match done {
                                Err(error) => Ran::Failed(
                                    Failure { error, bufs: h.bufs, buffers: h.buffers, kv },
                                ),
                                Ok(x) => Ran::Through(
                                    Flow {
                                        x,
                                        bufs: h.bufs,
                                        buffers: h.buffers,
                                        kv,
                                        shared: h.shared,
                                    },
                                ),
                            }
                        }
                    }),
                }
            }),
            other => other,
        }),
    decreases t.layers.len() - i,
{
    if i < t.layers.len() {
        let l = t.layers[i];
        assert(u.layers[i] == l);
        if let Ok(h) = l.halfway(device, mode, f.x, f.kv[i], f.buffers, f.bufs, f.shared) {
            if !l.host_routed() {
                if let Ok(x) = l.finished(
                    device,
                    h.residual,
                    h.mlp_out,
                    h.probs,
                    Seq::empty(),
                    slice_of(plis, i),
                ) {
                    let kv = f.kv.update(i, h.kv);
                    law_last_layer_comes_last(
                        t,
                        u,
                        device,
                        mode,
                        plis,
                        i + 1,
                        Flow { x, bufs: h.bufs, buffers: h.buffers, kv, shared: h.shared },
                    );
                }
            }
        }
    } else {
        reveal_with_fuel(TextModel::run, 2);
    }
}

} // verus!
