//! What layers give on inputs that hold the same in their first rows.
use vstd::prelude::*;

use crate::dtype::{DType, Device};
use crate::fused::{
    has_kernel, residual_norm, residual_sum, rms_normalized, swiglu, wide, SwigluAct,
};
use crate::gemma4::agreement::{lemma_same_norm, lemma_same_v_norm};
use crate::gemma4::layer::{DecoderLayer, PerLayerInput};
use crate::gemma4::moe::{ExpertWeights, Experts, Mlp, MoeBlock, Router};
use crate::gemma4::norm::{v_normed, RmsNorm};
use crate::loader::Proj;
use crate::positions::{
    counted_from, lemma_bin_extent, lemma_same_bin, lemma_same_part, lemma_same_tri, lemma_same_un,
    lemma_un_extent, pointwise, sideways, softmax_of, Meaning,
};
use crate::qwen3_5::pieces::{lemma_same_proj, lemma_same_rms};
use crate::routing::{hits, lemma_hits_tokens, lemma_row_hits, row_hits, token_ids};
use crate::shape::{d1, d2, d3, sat_product};
use crate::tape::{
    bin, gates_val, ids_val, leaf, pick_val, tri, un, GateRule, Op, Scalar, Term, Val, Weight,
};

verus! {

/// Two values of the same extents and element type that hold the same in their
/// first `r` rows.
pub open spec fn agree<V>(m: Meaning<V>, a: Val, b: Val, r: int) -> bool {
    &&& forall|i: int| 0 <= i < r ==> #[trigger] m.same(a, i, b, i)
    &&& a.shape == b.shape
    &&& a.dtype == b.dtype
    &&& m.len(a.term) == m.len(b.term)
}

pub proof fn lemma_agree_self<V>(m: Meaning<V>, a: Val, r: int)
    ensures
        agree(m, a, a, r),
{
}

pub proof fn lemma_agree_un<V>(m: Meaning<V>, op: Op, a: Val, b: Val, r: int)
    requires
        agree(m, a, b, r),
        !(op is Narrow) && !(op is CacheView),
    ensures
        agree(m, un(op, a), un(op, b), r),
        m.len(un(op, a).term) == m.len(a.term),
{
    assert forall|i: int| 0 <= i < r implies #[trigger] m.same(un(op, a), i, un(op, b), i) by {
        assert(m.same(a, i, b, i));
        lemma_same_un(m, op, a, i, b, i);
    }
    lemma_un_extent(m, op, a);
    lemma_un_extent(m, op, b);
    reveal(un);
}

pub proof fn lemma_agree_bin<V>(m: Meaning<V>, op: Op, a: (Val, Val), b: (Val, Val), r: int)
    requires
        agree(m, a.0, b.0, r),
        agree(m, a.1, b.1, r),
        pointwise(op, a.1.term) && pointwise(op, b.1.term),
    ensures
        agree(m, bin(op, a.0, a.1), bin(op, b.0, b.1), r),
        m.len(bin(op, a.0, a.1).term) == m.len(a.0.term),
{
    assert forall|i: int| 0 <= i < r implies #[trigger] m.same(
        bin(op, a.0, a.1),
        i,
        bin(op, b.0, b.1),
        i,
    ) by {
        assert(m.same(a.0, i, b.0, i) && m.same(a.1, i, b.1, i));
        lemma_same_bin(m, op, a, i, b, i);
    }
    lemma_bin_extent(m, op, a.0, a.1);
    lemma_bin_extent(m, op, b.0, b.1);
    reveal(bin);
}

pub proof fn lemma_agree_proj<V>(m: Meaning<V>, p: Proj, a: Val, b: Val, r: int)
    requires
        agree(m, a, b, r),
    ensures
        agree(m, p.apply(a), p.apply(b), r),
        m.len(p.apply(a).term) == m.len(a.term),
        p.apply(a).dtype == a.dtype,
{
    assert forall|i: int| 0 <= i < r implies #[trigger] m.same(p.apply(a), i, p.apply(b), i) by {
        assert(m.same(a, i, b, i));
        lemma_same_proj(m, p, a, i, b, i);
    }
    lemma_same_proj(m, p, a, 0, a, 0);
    lemma_same_proj(m, p, b, 0, b, 0);
    reveal(un);
    reveal(bin);
}

pub proof fn lemma_agree_norm<V>(m: Meaning<V>, n: RmsNorm, a: Val, b: Val, r: int)
    requires
        agree(m, a, b, r),
    ensures
        agree(m, n.apply(a), n.apply(b), r),
        m.len(n.apply(a).term) == m.len(a.term),
        n.apply(a).shape == a.shape,
        n.apply(a).dtype == a.dtype,
{
    assert forall|i: int| 0 <= i < r implies #[trigger] m.same(n.apply(a), i, n.apply(b), i) by {
        assert(m.same(a, i, b, i));
        lemma_same_norm(m, n, a, i, b, i);
    }
    lemma_same_norm(m, n, a, 0, a, 0);
    lemma_same_norm(m, n, b, 0, b, 0);
}

pub proof fn lemma_agree_v_norm<V>(m: Meaning<V>, eps: u64, a: Val, b: Val, r: int)
    requires
        agree(m, a, b, r),
    ensures
        agree(m, v_normed(a, eps), v_normed(b, eps), r),
        m.len(v_normed(a, eps).term) == m.len(a.term),
{
    assert forall|i: int| 0 <= i < r implies #[trigger] m.same(
        v_normed(a, eps),
        i,
        v_normed(b, eps),
        i,
    ) by {
        assert(m.same(a, i, b, i));
        lemma_same_v_norm(m, eps, a, i, b, i);
    }
    lemma_same_v_norm(m, eps, a, 0, a, 0);
    lemma_same_v_norm(m, eps, b, 0, b, 0);
}

pub proof fn lemma_agree_mlp<V>(m: Meaning<V>, f: Mlp, a: Val, b: Val, r: int)
    requires
        agree(m, a, b, r),
    ensures
        agree(m, f.apply(a), f.apply(b), r),
{
    let act = Op::Act(f.act_fn);
    lemma_agree_proj(m, f.gate_proj, a, b, r);
    lemma_agree_proj(m, f.up_proj, a, b, r);
    let (ga, gb) = (f.gate_proj.apply(a), f.gate_proj.apply(b));
    let (ua, ub) = (f.up_proj.apply(a), f.up_proj.apply(b));
    lemma_agree_un(m, act, ga, gb, r);
    lemma_agree_bin(m, Op::Mul, (un(act, ga), ua), (un(act, gb), ub), r);
    lemma_agree_proj(
        m,
        f.down_proj,
        bin(Op::Mul, un(act, ga), ua),
        bin(Op::Mul, un(act, gb), ub),
        r,
    );
}

/// What the router says of the first rows.
pub proof fn lemma_agree_router<V>(m: Meaning<V>, f: Router, a: Val, b: Val, r: int)
    requires
        agree(m, a, b, r),
    ensures
        agree(m, f.probs(a), f.probs(b), r),
        !sideways(a.term) && !sideways(b.term) ==> !sideways(f.probs(a).term) && !sideways(
            f.probs(b).term,
        ),
{
    let w = leaf(Op::Param(f.scale));
    let (na, nb) = (v_normed(a, f.eps), v_normed(b, f.eps));
    lemma_agree_v_norm(m, f.eps, a, b, r);
    lemma_agree_self(m, w, r);
    lemma_agree_bin(m, Op::BroadcastMul, (na, w), (nb, w), r);
    let (sa, sb) = (bin(Op::BroadcastMul, na, w), bin(Op::BroadcastMul, nb, w));
    let scale = Op::MulScalar(Scalar::RecipSqrt(f.hidden_size));
    lemma_agree_un(m, scale, sa, sb, r);
    lemma_agree_proj(m, f.proj, un(scale, sa), un(scale, sb), r);
    let (pa, pb) = (f.proj.apply(un(scale, sa)), f.proj.apply(un(scale, sb)));
    let to = Op::ToDType(DType::F32);
    lemma_agree_un(m, to, pa, pb, r);
    lemma_agree_un(m, Op::SoftmaxLast, un(to, pa), un(to, pb), r);
    if !sideways(a.term) && !sideways(b.term) {
        lemma_probs_upright(m, f, a);
        lemma_probs_upright(m, f, b);
    }
}

proof fn lemma_probs_upright<V>(m: Meaning<V>, f: Router, a: Val)
    requires
        !sideways(a.term),
    ensures
        !sideways(f.probs(a).term),
{
    let to = Op::ToDType(DType::F32);
    let wa = un(to, a);
    lemma_un_extent(m, to, a);
    let eps = Scalar::F64(f.eps);
    let axis = wa.shape.last_axis();
    let sq = un(Op::Sqr, wa);
    let mean = un(Op::MeanKeep(axis), sq);
    let plus = un(Op::AddScalar(eps), mean);
    let root = un(Op::Sqrt, plus);
    lemma_un_extent(m, Op::Sqr, wa);
    lemma_un_extent(m, Op::MeanKeep(axis), sq);
    lemma_un_extent(m, Op::AddScalar(eps), mean);
    lemma_un_extent(m, Op::Sqrt, plus);
    lemma_bin_extent(m, Op::BroadcastDiv, wa, root);
    let normed = rms_normalized(wa, eps);
    let back = Op::ToDType(a.dtype);
    lemma_un_extent(m, back, normed);
    let w = leaf(Op::Param(f.scale));
    let n = v_normed(a, f.eps);
    lemma_bin_extent(m, Op::BroadcastMul, n, w);
    let s = bin(Op::BroadcastMul, n, w);
    let scale = Op::MulScalar(Scalar::RecipSqrt(f.hidden_size));
    lemma_un_extent(m, scale, s);
    lemma_same_proj(m, f.proj, un(scale, s), 0, un(scale, s), 0);
    let p = f.proj.apply(un(scale, s));
    lemma_un_extent(m, to, p);
    lemma_un_extent(m, Op::SoftmaxLast, un(to, p));
}

/// A slice of the contents of every row.
proof fn lemma_agree_part<V>(m: Meaning<V>, op: Op, a: Val, b: Val, r: int)
    requires
        agree(m, a, b, r),
        op is Narrow && op->Narrow_dim == 1,
        !sideways(a.term) && !sideways(b.term),
    ensures
        agree(m, un(op, a), un(op, b), r),
{
    assert forall|i: int| 0 <= i < r implies #[trigger] m.same(un(op, a), i, un(op, b), i) by {
        assert(m.same(a, i, b, i));
        lemma_same_part(m, op, a, i, b, i);
    }
    lemma_un_extent(m, op, a);
    lemma_un_extent(m, op, b);
    reveal(un);
}

/// Numbers and weights of the experts that the device chooses.
proof fn lemma_agree_choice<V>(m: Meaning<V>, f: Router, a: Val, b: Val, r: int)
    requires
        agree(m, a, b, r),
        !sideways(a.term) && !sideways(b.term),
    ensures
        agree(m, f.gpu_ids(a), f.gpu_ids(b), r),
        agree(m, f.gpu_weights(a), f.gpu_weights(b), r),
{
    lemma_agree_router(m, f, a, b, r);
    let (pa, pb) = (f.probs(a), f.probs(b));
    lemma_agree_un(m, Op::ArgSortDescending, pa, pb, r);
    lemma_un_extent(m, Op::ArgSortDescending, pa);
    lemma_un_extent(m, Op::ArgSortDescending, pb);
    let (oa, ob) = (un(Op::ArgSortDescending, pa), un(Op::ArgSortDescending, pb));
    lemma_agree_part(m, Op::Narrow { dim: 1, start: 0, len: f.top_k }, oa, ob, r);
    let (ia, ib) = (f.gpu_ids(a), f.gpu_ids(b));
    lemma_agree_bin(m, Op::Gather(1), (pa, ia), (pb, ib), r);
    let (ta, tb) = (bin(Op::Gather(1), pa, ia), bin(Op::Gather(1), pb, ib));
    lemma_agree_un(m, Op::SumKeep(1), ta, tb, r);
    lemma_agree_bin(
        m,
        Op::BroadcastDiv,
        (ta, un(Op::SumKeep(1), ta)),
        (tb, un(Op::SumKeep(1), tb)),
        r,
    );
    let (wa, wb) = (
        bin(Op::BroadcastDiv, ta, un(Op::SumKeep(1), ta)),
        bin(Op::BroadcastDiv, tb, un(Op::SumKeep(1), tb)),
    );
    let n = ia.shape.d0;
    let flat = Op::Reshape(d1(sat_product(n, f.top_k)));
    lemma_agree_un(m, flat, ia, ib, r);
    let (fa, fb) = (un(flat, ia), un(flat, ib));
    let table = leaf(Op::Param(f.per_expert_scale));
    let (sa, sb) = (
        bin(Op::IndexSelect(0), table, fa),
        bin(Op::IndexSelect(0), table, fb),
    );
    assert(agree(m, sa, sb, r)) by {
        assert forall|i: int| 0 <= i < r implies #[trigger] m.same(sa, i, sb, i) by {
            assert(m.same(fa, i, fb, i));
            reveal(un);
            reveal(bin);
        }
        lemma_bin_extent(m, Op::IndexSelect(0), table, fa);
        lemma_bin_extent(m, Op::IndexSelect(0), table, fb);
        reveal(bin);
    }
    let back = Op::Reshape(d2(n, f.top_k));
    lemma_agree_un(m, back, sa, sb, r);
    lemma_agree_bin(m, Op::Mul, (wa, un(back, sa)), (wb, un(back, sb)), r);
}

proof fn lemma_agree_swiglu<V>(m: Meaning<V>, device: Device, act: SwigluAct, a: Val, b: Val, r: int)
    requires
        agree(m, a, b, r),
    ensures
        agree(m, swiglu(device, a, act), swiglu(device, b, act), r),
{
    if has_kernel(device, a.dtype) {
        lemma_agree_un(m, Op::FusedSwiglu(act), a, b, r);
    } else {
        let f = if act == SwigluAct::Silu { Op::Silu } else { Op::Gelu };
        let (h0, h1) = (Op::Half { index: 0 }, Op::Half { index: 1 });
        lemma_agree_un(m, h0, a, b, r);
        lemma_agree_un(m, h1, a, b, r);
        lemma_agree_un(m, f, un(h0, a), un(h0, b), r);
        lemma_agree_bin(
            m,
            Op::Mul,
            (un(f, un(h0, a)), un(h1, a)),
            (un(f, un(h0, b)), un(h1, b)),
            r,
        );
    }
}

/// Experts that the device chooses.
proof fn lemma_agree_fused<V>(
    m: Meaning<V>,
    f: MoeBlock,
    device: Device,
    mlp: (Val, Val),
    x: (Val, Val),
    r: int,
)
    requires
        agree(m, mlp.0, mlp.1, r),
        agree(m, x.0, x.1, r),
    ensures
        match (f.fused_out(device, mlp.0, x.0), f.fused_out(device, mlp.1, x.1)) {
            (Ok(a), Ok(b)) => agree(m, a, b, r),
            (Err(d), Err(e)) => d == e,
            _ => false,
        },
{
    let flat = Op::Reshape(d2(sat_product(x.0.shape.d0, x.0.shape.d1), x.0.shape.d2));
    let (fa, fb) = (MoeBlock::flat(x.0), MoeBlock::flat(x.1));
    lemma_agree_un(m, flat, x.0, x.1, r);
    lemma_un_extent(m, flat, x.0);
    lemma_un_extent(m, flat, x.1);
    lemma_agree_norm(m, f.pre_feedforward_layernorm_2, fa, fb, r);
    let (ha, hb) = (
        f.pre_feedforward_layernorm_2.apply(fa),
        f.pre_feedforward_layernorm_2.apply(fb),
    );
    if let ExpertWeights::QuantFused { gate_up, down } = f.experts.weights {
        lemma_agree_choice(m, f.router, fa, fb, r);
        let (ia, ib) = (f.router.gpu_ids(fa), f.router.gpu_ids(fb));
        let (wa, wb) = (f.router.gpu_weights(fa), f.router.gpu_weights(fb));
        let to = Op::ToDType(DType::F32);
        lemma_agree_un(m, to, ha, hb, r);
        let deep = Op::Reshape(d3(ha.shape.d0, 1, ha.shape.d1));
        lemma_agree_un(m, deep, un(to, ha), un(to, hb), r);
        let (xa, xb) = (un(deep, un(to, ha)), un(deep, un(to, hb)));
        let up = Op::IndexedMoe(gate_up);
        lemma_agree_bin(m, up, (xa, ia), (xb, ib), r);
        let (ga, gb) = (bin(up, xa, ia), bin(up, xb, ib));
        let act = f.experts.fused_act();
        lemma_agree_swiglu(m, device, act, ga, gb, r);
        let dn = Op::IndexedMoe(down);
        let (sa, sb) = (swiglu(device, ga, act), swiglu(device, gb, act));
        lemma_agree_bin(m, dn, (sa, ia), (sb, ib), r);
        let lift = Op::Unsqueeze(2);
        lemma_agree_un(m, lift, wa, wb, r);
        let (da, db) = (bin(dn, sa, ia), bin(dn, sb, ib));
        lemma_agree_bin(m, Op::BroadcastMul, (da, un(lift, wa)), (db, un(lift, wb)), r);
        let (ma, mb) = (
            bin(Op::BroadcastMul, da, un(lift, wa)),
            bin(Op::BroadcastMul, db, un(lift, wb)),
        );
        lemma_agree_un(m, Op::Sum(1), ma, mb, r);
        let back = Op::ToDType(ha.dtype);
        lemma_agree_un(m, back, un(Op::Sum(1), ma), un(Op::Sum(1), mb), r);
        lemma_agree_joined(
            m,
            f,
            mlp,
            x,
            (un(back, un(Op::Sum(1), ma)), un(back, un(Op::Sum(1), mb))),
            r,
        );
    }
}

proof fn lemma_agree_joined<V>(
    m: Meaning<V>,
    f: MoeBlock,
    mlp: (Val, Val),
    x: (Val, Val),
    h: (Val, Val),
    r: int,
)
    requires
        agree(m, mlp.0, mlp.1, r),
        x.0.shape == x.1.shape,
        agree(m, h.0, h.1, r),
    ensures
        agree(m, f.joined(mlp.0, x.0, h.0), f.joined(mlp.1, x.1, h.1), r),
{
    let deep = Op::Reshape(d3(x.0.shape.d0, x.0.shape.d1, x.0.shape.d2));
    lemma_agree_norm(m, f.post_feedforward_layernorm_1, mlp.0, mlp.1, r);
    lemma_agree_un(m, deep, h.0, h.1, r);
    lemma_agree_norm(m, f.post_feedforward_layernorm_2, un(deep, h.0), un(deep, h.1), r);
    lemma_agree_bin(
        m,
        Op::Add,
        (
            f.post_feedforward_layernorm_1.apply(mlp.0),
            f.post_feedforward_layernorm_2.apply(un(deep, h.0)),
        ),
        (
            f.post_feedforward_layernorm_1.apply(mlp.1),
            f.post_feedforward_layernorm_2.apply(un(deep, h.1)),
        ),
        r,
    );
}

/// An expert gives the same on the same row.
proof fn lemma_same_expert<V>(m: Meaning<V>, f: Experts, e: usize, a: Val, i: int, b: Val, j: int)
    requires
        m.same(a, i, b, j),
        !softmax_of(a.term) && !softmax_of(b.term),
        !f.fused(),
    ensures
        m.same(f.expert(e, a), i, f.expert(e, b), j),
{
    let act = Op::Act(f.act_fn);
    let (h0, h1) = (Op::Half { index: 0 }, Op::Half { index: 1 });
    let (ga, gb) = match f.weights {
        ExpertWeights::Plain { gate_up_t, down_t } => {
            let w = un(Op::Select { dim: 0, index: e }, leaf(Op::Param(gate_up_t)));
            lemma_same_product(m, a, i, b, j, w, gate_up_t, e);
            (bin(Op::MatMul, a, w), bin(Op::MatMul, b, w))
        },
        ExpertWeights::Quant { gate_ups, downs } => {
            let op = Op::QMatMul(gate_ups[e as int]);
            lemma_same_un(m, op, a, i, b, j);
            (un(op, a), un(op, b))
        },
        ExpertWeights::QuantFused { gate_up, down } => (a, b),
    };
    lemma_same_un(m, h0, ga, i, gb, j);
    lemma_same_un(m, h1, ga, i, gb, j);
    lemma_same_un(m, act, un(h0, ga), i, un(h0, gb), j);
    let (ha, hb) = (
        bin(Op::Mul, un(act, un(h0, ga)), un(h1, ga)),
        bin(Op::Mul, un(act, un(h0, gb)), un(h1, gb)),
    );
    lemma_same_bin(
        m,
        Op::Mul,
        (un(act, un(h0, ga)), un(h1, ga)),
        i,
        (un(act, un(h0, gb)), un(h1, gb)),
        j,
    );
    assert(!softmax_of(ha.term) && !softmax_of(hb.term)) by {
        reveal(bin);
    }
    match f.weights {
        ExpertWeights::Plain { gate_up_t, down_t } => {
            let w = un(Op::Select { dim: 0, index: e }, leaf(Op::Param(down_t)));
            lemma_same_product(m, ha, i, hb, j, w, down_t, e);
        },
        ExpertWeights::Quant { gate_ups, downs } => {
            lemma_same_un(m, Op::QMatMul(downs[e as int]), ha, i, hb, j);
        },
        ExpertWeights::QuantFused { gate_up, down } => {},
    }
}

/// A row times the weights of one expert.
proof fn lemma_same_product<V>(
    m: Meaning<V>,
    a: Val,
    i: int,
    b: Val,
    j: int,
    w: Val,
    table: Weight,
    e: usize,
)
    requires
        m.same(a, i, b, j),
        !softmax_of(a.term) && !softmax_of(b.term),
        w == un(Op::Select { dim: 0, index: e }, leaf(Op::Param(table))),
    ensures
        m.same(bin(Op::MatMul, a, w), i, bin(Op::MatMul, b, w), j),
{
    assert(m.at(w.term, i) == m.at(w.term, j) && w.term is Un) by {
        reveal(un);
        reveal_with_fuel(Meaning::at, 2);
    }
    assert(counted_from(w.term) is None) by {
        reveal(un);
    }
    reveal(bin);
}

/// The rows of `group` that are for token `t`, added to `base` one after the other.
pub open spec fn folded<V>(
    m: Meaning<V>,
    base: V,
    group: Seq<(usize, usize)>,
    t: int,
    val: spec_fn(usize) -> V,
    n: int,
) -> V
    decreases n,
{
    if n <= 0 {
        base
    } else {
        let before = folded(m, base, group, t, val, n - 1);
        if group[n - 1].0 == t {
            (m.bin)(Op::Add, before, val(group[n - 1].1))
        } else {
            before
        }
    }
}

/// Rows for other tokens change nothing.
proof fn lemma_folded_none<V>(
    m: Meaning<V>,
    base: V,
    group: Seq<(usize, usize)>,
    t: int,
    val: spec_fn(usize) -> V,
    n: int,
)
    requires
        0 <= n <= group.len(),
        forall|k: int| 0 <= k < n ==> (#[trigger] group[k]).0 != t,
    ensures
        folded(m, base, group, t, val, n) == base,
    decreases n,
{
    if n > 0 {
        lemma_folded_none(m, base, group, t, val, n - 1);
        assert(group[n - 1].0 != t);
    }
}

/// Two groups one after the other.
pub proof fn lemma_folded_parts<V>(
    m: Meaning<V>,
    base: V,
    a: Seq<(usize, usize)>,
    b: Seq<(usize, usize)>,
    t: int,
    val: spec_fn(usize) -> V,
    n: int,
)
    requires
        0 <= n <= b.len(),
    ensures
        folded(m, base, a + b, t, val, a.len() + n) == folded(
            m,
            folded(m, base, a, t, val, a.len() as int),
            b,
            t,
            val,
            n,
        ),
    decreases n,
{
    if n > 0 {
        lemma_folded_parts(m, base, a, b, t, val, n - 1);
        assert((a + b)[a.len() + n - 1] == b[n - 1]);
    } else {
        lemma_folded_prefix(m, base, a, b, t, val, a.len() as int);
    }
}

proof fn lemma_folded_prefix<V>(
    m: Meaning<V>,
    base: V,
    a: Seq<(usize, usize)>,
    b: Seq<(usize, usize)>,
    t: int,
    val: spec_fn(usize) -> V,
    n: int,
)
    requires
        n <= a.len(),
    ensures
        folded(m, base, a + b, t, val, n) == folded(m, base, a, t, val, n),
    decreases n,
{
    if n > 0 {
        lemma_folded_prefix(m, base, a, b, t, val, n - 1);
        assert((a + b)[n - 1] == a[n - 1]);
    }
}

/// Of the choices of a whole plan, those of token `t` count for it.
pub proof fn lemma_folded_hits<V>(
    m: Meaning<V>,
    base: V,
    plan: Seq<Seq<usize>>,
    e: usize,
    t: int,
    val: spec_fn(usize) -> V,
    n: int,
)
    requires
        0 <= t < plan.len(),
        0 <= n <= plan.len() <= usize::MAX,
        forall|i: int| 0 <= i < plan.len() ==> #[trigger] plan[i].len() <= usize::MAX,
    ensures
        ({
            let own = row_hits(plan[t], t as usize, e, plan[t].len() as int);
            let group = hits(plan, e, n);
            folded(m, base, group, t, val, group.len() as int) == (if n <= t {
                base
            } else {
                folded(m, base, own, t, val, own.len() as int)
            })
        }),
    decreases n,
{
    if n > 0 {
        lemma_folded_hits(m, base, plan, e, t, val, n - 1);
        let before = hits(plan, e, n - 1);
        let row = row_hits(plan[n - 1], (n - 1) as usize, e, plan[n - 1].len() as int);
        lemma_folded_parts(m, base, before, row, t, val, row.len() as int);
        if n - 1 != t {
            assert forall|k: int| 0 <= k < row.len() implies (#[trigger] row[k]).0 != t by {
                assert(row.contains(row[k]));
                lemma_row_hits(
                    plan[n - 1],
                    (n - 1) as usize,
                    e,
                    plan[n - 1].len() as int,
                    row[k],
                );
            }
            lemma_folded_none(
                m,
                folded(m, base, before, t, val, before.len() as int),
                row,
                t,
                val,
                row.len() as int,
            );
        }
    }
}

/// What an expert's rows add to token `t`.
pub open spec fn share<V>(
    m: Meaning<V>,
    f: Experts,
    e: usize,
    x: Val,
    gates: Val,
    t: int,
) -> spec_fn(usize) -> V {
    |j: usize|
        (m.bin)(
            Op::BroadcastMul,
            m.at(f.expert(e, x).term, t),
            (m.un)(Op::ToDType(x.dtype), (m.pick)(j, m.at(gates.term, t))),
        )
}

/// The rows of one expert, added up for token `t`.
proof fn lemma_added<V>(
    m: Meaning<V>,
    f: Experts,
    e: usize,
    x: Val,
    gates: Val,
    before: Val,
    group: Seq<(usize, usize)>,
    t: int,
    n: int,
)
    requires
        !f.fused(),
        0 <= n <= group.len(),
        0 <= t < 0x1_0000_0000,
        !softmax_of(x.term) && !(x.term is Leaf),
        forall|k: int| 0 <= k < group.len() ==> (#[trigger] group[k]).0 < 0x1_0000_0000,
    ensures
        ({
            let idx = ids_val(token_ids(group));
            let ys = f.expert(e, bin(Op::IndexSelect(0), x, idx));
            let w = un(Op::ToDType(x.dtype), pick_val(gates, group));
            let term = tri(Op::IndexAdd(0), before, idx, bin(Op::BroadcastMul, ys, w)).term;
            m.added(term, t, n) == folded(
                m,
                m.at(before.term, t),
                group,
                t,
                share(m, f, e, x, gates, t),
                n,
            )
        }),
    decreases n,
{
    let idx = ids_val(token_ids(group));
    let rows = bin(Op::IndexSelect(0), x, idx);
    let ys = f.expert(e, rows);
    let w = un(Op::ToDType(x.dtype), pick_val(gates, group));
    let c = bin(Op::BroadcastMul, ys, w);
    let term = tri(Op::IndexAdd(0), before, idx, c).term;
    assert(term == Term::Tri(
        Op::IndexAdd(0),
        Box::new(before.term),
        Box::new(idx.term),
        Box::new(c.term),
    )) by {
        reveal(tri);
    }
    if n > 0 {
        lemma_added(m, f, e, x, gates, before, group, t, n - 1);
        let k = n - 1;
        assert(group[k].0 < 0x1_0000_0000);
        assert(token_ids(group)[k] as int == group[k].0);
        if group[k].0 == t {
            assert(m.same(rows, k, x, t)) by {
                reveal(bin);
            }
            assert(!softmax_of(rows.term)) by {
                reveal(bin);
            }
            lemma_same_expert(m, f, e, rows, k, x, t);
            assert(m.at(w.term, k) == (m.un)(
                Op::ToDType(x.dtype),
                (m.pick)(group[k].1, m.at(gates.term, t)),
            )) by {
                reveal(un);
                reveal_with_fuel(Meaning::at, 3);
            }
            assert(m.at(c.term, k) == (m.bin)(
                Op::BroadcastMul,
                m.at(ys.term, k),
                m.at(w.term, k),
            )) by {
                reveal(bin);
                reveal(un);
            }
        }
    }
}

/// Experts that the host chose, where the plans agree on the first rows.
proof fn lemma_agree_combined<V>(
    m: Meaning<V>,
    f: Experts,
    x: (Val, Val),
    gates: (Val, Val),
    plans: (Seq<Seq<usize>>, Seq<Seq<usize>>),
    r: int,
    e: int,
)
    requires
        !f.fused(),
        0 <= e <= f.num_experts,
        plans_agree(plans.0, plans.1, r),
        agree(m, x.0, x.1, r),
        forall|t: int| 0 <= t < r ==> #[trigger] m.same(gates.0, t, gates.1, t),
        !softmax_of(x.0.term) && !softmax_of(x.1.term),
        !(x.0.term is Leaf) && !(x.1.term is Leaf),
    ensures
        agree(m, f.combined(x.0, gates.0, plans.0, e), f.combined(x.1, gates.1, plans.1, e), r),
        f.combined(x.0, gates.0, plans.0, e).shape == x.0.shape,
    decreases e,
{
    if e > 0 {
        lemma_agree_combined(m, f, x, gates, plans, r, e - 1);
        let k = (e - 1) as usize;
        let (ca, cb) = (
            f.combined(x.0, gates.0, plans.0, e),
            f.combined(x.1, gates.1, plans.1, e),
        );
        assert forall|t: int| 0 <= t < r implies #[trigger] m.same(ca, t, cb, t) by {
            lemma_combined_at(m, f, x.0, gates.0, plans.0, e, t);
            lemma_combined_at(m, f, x.1, gates.1, plans.1, e, t);
            assert(m.same(x.0, t, x.1, t) && m.same(gates.0, t, gates.1, t));
            lemma_same_expert(m, f, k, x.0, t, x.1, t);
            assert(m.same(
                f.combined(x.0, gates.0, plans.0, e - 1),
                t,
                f.combined(x.1, gates.1, plans.1, e - 1),
                t,
            ));
            let (sa, sb) = (
                share(m, f, k, x.0, gates.0, t),
                share(m, f, k, x.1, gates.1, t),
            );
            assert(sa =~= sb);
            assert(plans.0[t] == plans.1[t]);
        }
        lemma_combined_extent(m, f, x.0, gates.0, plans.0, e);
        lemma_combined_extent(m, f, x.1, gates.1, plans.1, e);
        lemma_combined_extent(m, f, x.0, gates.0, plans.0, e - 1);
        lemma_combined_extent(m, f, x.1, gates.1, plans.1, e - 1);
    }
}

/// Extents of the sum over experts.
proof fn lemma_combined_extent<V>(
    m: Meaning<V>,
    f: Experts,
    x: Val,
    gates: Val,
    plan: Seq<Seq<usize>>,
    e: int,
)
    ensures
        ({
            let c = f.combined(x, gates, plan, e);
            c.shape == x.shape && c.dtype == x.dtype && m.len(c.term) == x.shape.d1
        }),
    decreases e,
{
    if e > 0 {
        lemma_combined_extent(m, f, x, gates, plan, e - 1);
        reveal(tri);
    }
}

/// Plans of as many tokens as can be numbered, the same for the first `r` tokens.
pub open spec fn plans_agree(a: Seq<Seq<usize>>, b: Seq<Seq<usize>>, r: int) -> bool {
    &&& r <= a.len() < 0x1_0000_0000 && r <= b.len() < 0x1_0000_0000
    &&& forall|t: int| 0 <= t < r ==> #[trigger] a[t] == b[t]
    &&& forall|t: int| 0 <= t < a.len() ==> #[trigger] a[t].len() <= usize::MAX
    &&& forall|t: int| 0 <= t < b.len() ==> #[trigger] b[t].len() <= usize::MAX
}

/// The sum over experts at token `t`, from the sum over one expert less.
proof fn lemma_combined_at<V>(
    m: Meaning<V>,
    f: Experts,
    x: Val,
    gates: Val,
    plan: Seq<Seq<usize>>,
    e: int,
    t: int,
)
    requires
        !f.fused(),
        0 < e <= f.num_experts,
        0 <= t < plan.len() < 0x1_0000_0000,
        forall|i: int| 0 <= i < plan.len() ==> #[trigger] plan[i].len() <= usize::MAX,
        !softmax_of(x.term) && !(x.term is Leaf),
    ensures
        ({
            let k = (e - 1) as usize;
            let own = row_hits(plan[t], t as usize, k, plan[t].len() as int);
            m.at(f.combined(x, gates, plan, e).term, t) == folded(
                m,
                m.at(f.combined(x, gates, plan, e - 1).term, t),
                own,
                t,
                share(m, f, k, x, gates, t),
                own.len() as int,
            )
        }),
{
    let k = (e - 1) as usize;
    let n = plan.len() as int;
    let group = hits(plan, k, n);
    let before = f.combined(x, gates, plan, e - 1);
    let val = share(m, f, k, x, gates, t);
    lemma_folded_hits(m, m.at(before.term, t), plan, k, t, val, n);
    if group.len() > 0 {
        assert forall|i: int| 0 <= i < group.len() implies (#[trigger] group[i]).0
            < 0x1_0000_0000 by {
            assert(group.contains(group[i]));
            lemma_hits_tokens(plan, k, n, group[i]);
        }
        lemma_added(m, f, k, x, gates, before, group, t, group.len() as int);
        let idx = ids_val(token_ids(group));
        let ys = f.expert(k, bin(Op::IndexSelect(0), x, idx));
        let w = un(Op::ToDType(x.dtype), pick_val(gates, group));
        let whole = tri(Op::IndexAdd(0), before, idx, bin(Op::BroadcastMul, ys, w));
        assert(f.combined(x, gates, plan, e) == whole);
        assert(m.at(whole.term, t) == m.added(whole.term, t, group.len() as int)) by {
            reveal(tri);
        }
    }
}

/// Experts that the host chose.
proof fn lemma_agree_routed<V>(
    m: Meaning<V>,
    f: MoeBlock,
    mlp: (Val, Val),
    x: (Val, Val),
    probs: (Val, Val),
    plans: (Seq<Seq<usize>>, Seq<Seq<usize>>),
    r: int,
)
    requires
        !f.experts.fused(),
        agree(m, mlp.0, mlp.1, r),
        agree(m, x.0, x.1, r),
        agree(m, probs.0, probs.1, r),
        plans_agree(plans.0, plans.1, r),
    ensures
        agree(
            m,
            f.routed_out(mlp.0, x.0, probs.0, plans.0),
            f.routed_out(mlp.1, x.1, probs.1, plans.1),
            r,
        ),
{
    let flat = Op::Reshape(d2(sat_product(x.0.shape.d0, x.0.shape.d1), x.0.shape.d2));
    let (fa, fb) = (MoeBlock::flat(x.0), MoeBlock::flat(x.1));
    lemma_agree_un(m, flat, x.0, x.1, r);
    let n = f.pre_feedforward_layernorm_2;
    lemma_agree_norm(m, n, fa, fb, r);
    let (ha, hb) = (n.apply(fa), n.apply(fb));
    assert(ha.term is Bin && hb.term is Bin) by {
        reveal(bin);
    }
    let rule = GateRule::Scaled(f.router.per_expert_scale);
    let (ga, gb) = (gates_val(rule, probs.0, plans.0), gates_val(rule, probs.1, plans.1));
    assert forall|t: int| 0 <= t < r implies #[trigger] m.same(ga, t, gb, t) by {
        assert(m.same(probs.0, t, probs.1, t));
        assert(plans.0[t] == plans.1[t]);
    }
    let e = f.experts.num_experts as int;
    lemma_agree_combined(m, f.experts, (ha, hb), (ga, gb), plans, r, e);
    lemma_agree_joined(
        m,
        f,
        mlp,
        x,
        (
            f.experts.combined(ha, ga, plans.0, e),
            f.experts.combined(hb, gb, plans.1, e),
        ),
        r,
    );
}

/// Values that are there on both sides and agree, or on neither.
pub open spec fn agree_opt<V>(m: Meaning<V>, a: Option<Val>, b: Option<Val>, r: int) -> bool {
    match (a, b) {
        (Some(x), Some(y)) => agree(m, x, y, r),
        (None, None) => true,
        _ => false,
    }
}

/// The rest of a layer.
pub proof fn lemma_agree_finished<V>(
    m: Meaning<V>,
    l: DecoderLayer,
    device: Device,
    x: (Val, Val),
    mlp: (Val, Val),
    probs: (Option<Val>, Option<Val>),
    plans: (Seq<Seq<usize>>, Seq<Seq<usize>>),
    pli: (Option<Val>, Option<Val>),
    r: int,
)
    requires
        agree(m, x.0, x.1, r),
        agree(m, mlp.0, mlp.1, r),
        agree_opt(m, probs.0, probs.1, r),
        agree_opt(m, pli.0, pli.1, r),
        l.host_routed() ==> probs.0 is Some && plans_agree(plans.0, plans.1, r),
    ensures
        match (
            l.finished(device, x.0, mlp.0, probs.0, plans.0, pli.0),
            l.finished(device, x.1, mlp.1, probs.1, plans.1, pli.1),
        ) {
            (Ok(a), Ok(b)) => agree(m, a, b, r) && m.len(a.term) == m.len(x.0.term),
            (Err(d), Err(e)) => d == e,
            _ => false,
        },
{
    reveal(DecoderLayer::finished);
    let mixed = if let Some(moe) = l.moe {
        if moe.experts.fused() {
            lemma_agree_fused(m, moe, device, mlp, x, r);
            (moe.fused_out(device, mlp.0, x.0), moe.fused_out(device, mlp.1, x.1))
        } else {
            lemma_agree_routed(m, moe, mlp, x, (probs.0->0, probs.1->0), plans, r);
            (
                Ok(moe.routed_out(mlp.0, x.0, probs.0->0, plans.0)),
                Ok(moe.routed_out(mlp.1, x.1, probs.1->0, plans.1)),
            )
        }
    } else {
        (Ok(mlp.0), Ok(mlp.1))
    };
    if let (Ok(ya), Ok(yb)) = mixed {
        let n = l.post_feedforward_layernorm;
        lemma_agree_norm(m, n, ya, yb, r);
        lemma_agree_bin(m, Op::Add, (x.0, n.apply(ya)), (x.1, n.apply(yb)), r);
        let (xa, xb) = (bin(Op::Add, x.0, n.apply(ya)), bin(Op::Add, x.1, n.apply(yb)));
        let (za, zb) = match (l.per_layer, pli.0) {
            (Some(i), Some(p)) => {
                let q = pli.1->0;
                lemma_agree_per_layer(m, l, i, (xa, xb), (p, q), r);
                let (ga, gb) = (
                    un(Op::Act(l.act_fn), i.gate.apply(xa)),
                    un(Op::Act(l.act_fn), i.gate.apply(xb)),
                );
                (
                    bin(Op::Add, xa, i.norm.apply(i.projection.apply(bin(Op::Mul, ga, p)))),
                    bin(Op::Add, xb, i.norm.apply(i.projection.apply(bin(Op::Mul, gb, q)))),
                )
            },
            _ => (xa, xb),
        };
        assert(agree(m, za, zb, r) && m.len(za.term) == m.len(x.0.term));
        lemma_agree_un(m, Op::MulScalar(Scalar::F64(l.layer_scalar)), za, zb, r);
    }
}

proof fn lemma_agree_per_layer<V>(
    m: Meaning<V>,
    l: DecoderLayer,
    i: PerLayerInput,
    x: (Val, Val),
    p: (Val, Val),
    r: int,
)
    requires
        agree(m, x.0, x.1, r),
        agree(m, p.0, p.1, r),
    ensures
        ({
            let out = |x: Val, p: Val|
                bin(
                    Op::Add,
                    x,
                    i.norm.apply(
                        i.projection.apply(
                            bin(Op::Mul, un(Op::Act(l.act_fn), i.gate.apply(x)), p),
                        ),
                    ),
                );
            &&& agree(m, out(x.0, p.0), out(x.1, p.1), r)
            &&& m.len(out(x.0, p.0).term) == m.len(x.0.term)
        }),
{
    let act = Op::Act(l.act_fn);
    lemma_agree_proj(m, i.gate, x.0, x.1, r);
    let (ga, gb) = (i.gate.apply(x.0), i.gate.apply(x.1));
    lemma_agree_un(m, act, ga, gb, r);
    lemma_agree_bin(m, Op::Mul, (un(act, ga), p.0), (un(act, gb), p.1), r);
    let (ma, mb) = (bin(Op::Mul, un(act, ga), p.0), bin(Op::Mul, un(act, gb), p.1));
    lemma_agree_proj(m, i.projection, ma, mb, r);
    let (ja, jb) = (i.projection.apply(ma), i.projection.apply(mb));
    lemma_agree_norm(m, i.norm, ja, jb, r);
    lemma_agree_bin(m, Op::Add, (x.0, i.norm.apply(ja)), (x.1, i.norm.apply(jb)), r);
}

/// The residual sum and its norm.
pub proof fn lemma_agree_residual<V>(
    m: Meaning<V>,
    device: Device,
    y: (Val, Val),
    x: (Val, Val),
    w: Weight,
    eps: Scalar,
    r: int,
)
    requires
        agree(m, y.0, y.1, r),
        agree(m, x.0, x.1, r),
    ensures
        agree(
            m,
            residual_sum(device, y.0, x.0, w, eps, false),
            residual_sum(device, y.1, x.1, w, eps, false),
            r,
        ),
        agree(
            m,
            residual_norm(device, y.0, x.0, w, eps, false),
            residual_norm(device, y.1, x.1, w, eps, false),
            r,
        ),
        m.len(residual_sum(device, y.0, x.0, w, eps, false).term) == m.len(y.0.term),
{
    if has_kernel(device, y.0.dtype) {
        let op = Op::FusedAddRmsNorm { eps, plus_one: false };
        let t = leaf(Op::Param(w));
        let (ta, tb) = (tri(op, y.0, x.0, t), tri(op, y.1, x.1, t));
        assert forall|i: int| 0 <= i < r implies #[trigger] m.same(ta, i, tb, i) by {
            assert(m.same(y.0, i, y.1, i) && m.same(x.0, i, x.1, i));
            lemma_same_tri(m, op, (y.0, x.0, t), i, (y.1, x.1, t), i);
        }
        lemma_same_tri(m, op, (y.0, x.0, t), 0, (y.0, x.0, t), 0);
        lemma_same_tri(m, op, (y.1, x.1, t), 0, (y.1, x.1, t), 0);
        assert(agree(m, ta, tb, r)) by {
            reveal(tri);
        }
        lemma_agree_un(m, Op::Select { dim: 0, index: 0 }, ta, tb, r);
        lemma_agree_un(m, Op::Select { dim: 0, index: 1 }, ta, tb, r);
    } else {
        lemma_agree_bin(m, Op::Add, (y.0, x.0), (y.1, x.1), r);
        let (sa, sb) = (bin(Op::Add, y.0, x.0), bin(Op::Add, y.1, x.1));
        let to = Op::ToDType(DType::F32);
        lemma_agree_un(m, to, sa, sb, r);
        let (wa, wb) = (un(to, sa), un(to, sb));
        let (ra, rb) = (rms_normalized(wa, eps), rms_normalized(wb, eps));
        assert(agree(m, ra, rb, r)) by {
            assert forall|i: int| 0 <= i < r implies #[trigger] m.same(ra, i, rb, i) by {
                assert(m.same(wa, i, wb, i));
                lemma_same_rms(m, eps, wa, i, wb, i);
            }
            let axis = wa.shape.last_axis();
            let root = |v: Val|
                un(Op::Sqrt, un(Op::AddScalar(eps), un(Op::MeanKeep(axis), un(Op::Sqr, v))));
            lemma_bin_extent(m, Op::BroadcastDiv, wa, root(wa));
            lemma_bin_extent(m, Op::BroadcastDiv, wb, root(wb));
            reveal(un);
            reveal(bin);
        }
        lemma_agree_self(m, wide(w), r);
        lemma_agree_bin(m, Op::BroadcastMul, (ra, wide(w)), (rb, wide(w)), r);
        lemma_agree_un(
            m,
            Op::ToDType(sa.dtype),
            bin(Op::BroadcastMul, ra, wide(w)),
            bin(Op::BroadcastMul, rb, wide(w)),
            r,
        );
    }
}

} // verus!
