//! What norms, delta-net layers, experts and layers do to the contents of a position.
use vstd::prelude::*;

use crate::contents::{
    law_rms_of_each_position, lemma_at_bin, lemma_at_proj, lemma_at_tri, lemma_at_un,
};
use crate::dtype::{DType, Device};
use crate::error::Error;
use crate::fused::rms_normalized;
use crate::mixture::summed;
use crate::positions::{
    counted_from, lemma_bin_extent, lemma_joined, lemma_laid_out, lemma_looked_up, lemma_sliced,
    lemma_un_extent, sideways, Meaning,
};
use crate::gemma4::rewind::lemma_rows_from;
use crate::qwen3_5::delta::{biased, silu_of, softplus_of, tap, taps, GatedDeltaNet, GdnState};
use crate::qwen3_5::ffn::{Ffn, Mlp, SparseMoe};
use crate::qwen3_5::layer::{DecoderLayer, MixState, Mode};
use crate::qwen3_5::model::{Failure, Flow, Model, Ran, Task};
use crate::qwen3_5::norm::{l2_normed, RmsNormPlus1, Rotary};
use crate::shape::{d2, d3, sat_product};
use crate::tape::{
    bin, gates_val, held, leaf, pick_val, scan_output, scan_state, tri, un, Buf, Bufs, GateRule, Op,
    Scalar, Term, Val,
};

verus! {

/// A slice of the contents of every position.
proof fn lemma_at_cut<V>(m: Meaning<V>, dim: usize, start: usize, len: usize, a: Val, i: int)
    requires
        dim >= 1,
        dim == 1 ==> !sideways(a.term),
    ensures
        m.at(un(Op::Narrow { dim, start, len }, a).term, i) == (m.un)(
            Op::Narrow { dim, start, len },
            m.at(a.term, i),
        ),
        dim >= 2 ==> m.len(un(Op::Narrow { dim, start, len }, a).term) == m.len(a.term),
{
    reveal(un);
}

/// What a norm gives on `v`: in single precision, over the root of the mean of its
/// squares plus epsilon, times the weight, to which one was added when it was read.
pub open spec fn normed_row<V>(m: Meaning<V>, n: RmsNormPlus1, d: DType, axis: usize, v: V) -> V {
    let v = (m.un)(Op::ToDType(DType::F32), v);
    let mean = (m.un)(Op::MeanKeep(axis), (m.un)(Op::Sqr, v));
    let root = (m.un)(Op::Sqrt, (m.un)(Op::AddScalar(Scalar::F64(n.eps)), mean));
    (m.un)(
        Op::ToDType(d),
        (m.bin)(
            Op::BroadcastMul,
            (m.bin)(Op::BroadcastDiv, v, root),
            (m.leaf)(Op::Param(n.weight)),
        ),
    )
}

/// A norm treats positions one by one.
pub proof fn law_norm_of_each_position<V>(m: Meaning<V>, n: RmsNormPlus1, x: Val, i: int)
    ensures
        m.at(n.apply(x).term, i) == normed_row(
            m,
            n,
            x.dtype,
            x.shape.last_axis(),
            m.at(x.term, i),
        ),
        m.len(n.apply(x).term) == m.len(x.term),
        n.apply(x).shape == x.shape && n.apply(x).dtype == x.dtype,
{
    let v = un(Op::ToDType(DType::F32), x);
    let eps = Scalar::F64(n.eps);
    let normed = rms_normalized(v, eps);
    let w = leaf(Op::Param(n.weight));
    assert(v.shape == x.shape) by {
        reveal(un);
    }
    lemma_at_un(m, Op::ToDType(DType::F32), x, i);
    law_rms_of_each_position(m, v, eps, i);
    lemma_at_bin(m, Op::BroadcastMul, normed, w, i);
    lemma_at_un(m, Op::ToDType(x.dtype), bin(Op::BroadcastMul, normed, w), i);
    reveal(un);
    reveal(bin);
}

/// A row over its Euclidean length plus `1e-6`.
pub proof fn law_length_norm_of_each_position<V>(m: Meaning<V>, x: Val, i: int)
    ensures
        ({
            let v = m.at(x.term, i);
            let sum = (m.un)(Op::SumKeep(x.shape.last_axis()), (m.un)(Op::Sqr, v));
            m.at(l2_normed(x).term, i) == (m.bin)(
                Op::BroadcastDiv,
                v,
                (m.un)(
                    Op::AddScalar(Scalar::F64(0x3eb0_c6f7_a0b5_ed8d)),
                    (m.un)(Op::Sqrt, sum),
                ),
            )
        }),
{
    let sq = un(Op::Sqr, x);
    let sum = un(Op::SumKeep(x.shape.last_axis()), sq);
    let root = un(Op::Sqrt, sum);
    let plus = Op::AddScalar(Scalar::F64(0x3eb0_c6f7_a0b5_ed8d));
    lemma_at_un(m, Op::Sqr, x, i);
    lemma_at_un(m, Op::SumKeep(x.shape.last_axis()), sq, i);
    lemma_at_un(m, Op::Sqrt, sum, i);
    lemma_at_un(m, plus, root, i);
    lemma_at_bin(m, Op::BroadcastDiv, x, un(plus, root), i);
}

/// What turning a head by a row of cosines and one of sines gives: its first `rot`
/// dims are turned, the others stay.
pub open spec fn turned_row<V>(m: Meaning<V>, r: Rotary, d: DType, hd: usize, x: V, c: V, s: V) -> V {
    let (c, s) = ((m.un)(Op::ToDType(d), c), (m.un)(Op::ToDType(d), s));
    if r.rot == hd {
        (m.tri)(Op::RopeInterleaved, x, c, s)
    } else {
        (m.bin)(
            Op::Cat(3),
            (m.tri)(
                Op::RopeInterleaved,
                (m.un)(Op::Narrow { dim: 3, start: 0, len: r.rot }, x),
                c,
                s,
            ),
            (m.un)(Op::Narrow { dim: 3, start: r.rot, len: (hd - r.rot) as usize }, x),
        )
    }
}

proof fn lemma_turned<V>(
    m: Meaning<V>,
    r: Rotary,
    x: Val,
    cos: Val,
    sin: Val,
    hd: usize,
    i: int,
)
    ensures
        m.at(r.rotated(x, cos, sin, hd).term, i) == turned_row(
            m,
            r,
            x.dtype,
            hd,
            m.at(x.term, i),
            m.at(cos.term, i),
            m.at(sin.term, i),
        ),
        m.len(r.rotated(x, cos, sin, hd).term) == m.len(x.term),
{
    let to = Op::ToDType(x.dtype);
    let (c, s) = (un(to, cos), un(to, sin));
    lemma_at_un(m, to, cos, i);
    lemma_at_un(m, to, sin, i);
    if r.rot == hd {
        lemma_at_tri(m, Op::RopeInterleaved, x, c, s, i);
    } else {
        let rest = (hd - r.rot) as usize;
        let front = un(Op::Narrow { dim: 3, start: 0, len: r.rot }, x);
        let back = un(Op::Narrow { dim: 3, start: r.rot, len: rest }, x);
        lemma_at_cut(m, 3, 0, r.rot, x, i);
        lemma_at_cut(m, 3, r.rot, rest, x, i);
        lemma_at_tri(m, Op::RopeInterleaved, front, c, s, i);
        lemma_at_bin(m, Op::Cat(3), tri(Op::RopeInterleaved, front, c, s), back, i);
    }
}

/// A head is turned by the row of its own position: counted from `pos` on, or from
/// the position that `idx` holds.
pub proof fn law_rotation_follows_position<V>(
    m: Meaning<V>,
    r: Rotary,
    x: Val,
    pos: usize,
    seq: usize,
    idx: Val,
    hd: usize,
    i: int,
)
    ensures
        m.at(r.at(x, pos, seq, hd).term, i) == turned_row(
            m,
            r,
            x.dtype,
            hd,
            m.at(x.term, i),
            (m.row)(r.cos, pos + i),
            (m.row)(r.sin, pos + i),
        ),
        m.len(r.at(x, pos, seq, hd).term) == m.len(x.term),
        counted_from(idx.term) matches Some(n) ==> m.at(r.at_rows(x, idx, hd).term, i)
            == turned_row(
            m,
            r,
            x.dtype,
            hd,
            m.at(x.term, i),
            (m.row)(r.cos, n + i),
            (m.row)(r.sin, n + i),
        ),
{
    let rows = Op::Narrow { dim: 0, start: pos, len: seq };
    lemma_looked_up(m, r.cos, pos, seq, i);
    lemma_looked_up(m, r.sin, pos, seq, i);
    lemma_turned(m, r, x, un(rows, leaf(Op::Param(r.cos))), un(rows, leaf(Op::Param(r.sin))), hd, i);
    let (c, s) = (
        bin(Op::IndexSelect(0), leaf(Op::Param(r.cos)), idx),
        bin(Op::IndexSelect(0), leaf(Op::Param(r.sin)), idx),
    );
    lemma_turned(m, r, x, c, s, hd, i);
    if counted_from(idx.term) is Some {
        lemma_rows_from(m, r.cos, idx, i);
        lemma_rows_from(m, r.sin, idx, i);
    }
}

/// What a gated block gives on `v`.
pub open spec fn gated_row<V>(m: Meaning<V>, f: Mlp, v: V) -> V {
    m.projected(
        f.down_proj,
        (m.bin)(
            Op::Mul,
            (m.un)(Op::Silu, m.projected(f.gate_proj, v)),
            m.projected(f.up_proj, v),
        ),
    )
}

/// A gated block treats positions one by one.
pub proof fn law_gated_block_of_each_position<V>(m: Meaning<V>, f: Mlp, x: Val, i: int)
    ensures
        m.at(f.apply(x).term, i) == gated_row(m, f, m.at(x.term, i)),
{
    let (g, u) = (f.gate_proj.apply(x), f.up_proj.apply(x));
    let act = un(Op::Silu, g);
    lemma_at_proj(m, f.gate_proj, x, i);
    lemma_at_proj(m, f.up_proj, x, i);
    lemma_at_un(m, Op::Silu, g, i);
    lemma_at_bin(m, Op::Mul, act, u, i);
    lemma_at_proj(m, f.down_proj, bin(Op::Mul, act, u), i);
}

/// The probabilities of a token: the softmax, in single precision, of what the router
/// projects its row to.
pub proof fn law_router_scores_each_token<V>(m: Meaning<V>, f: SparseMoe, x: Val, t: int)
    ensures
        m.at(f.probs(x).term, t) == (m.un)(
            Op::SoftmaxLast,
            (m.un)(Op::ToDType(DType::F32), m.projected(f.gate, m.at(x.term, t))),
        ),
{
    let flat = SparseMoe::flat(x);
    let p = f.gate.apply(flat);
    lemma_laid_out(m, Op::Reshape(d2(sat_product(x.shape.d0, x.shape.d1), x.shape.d2)), x, t);
    lemma_at_proj(m, f.gate, flat, t);
    lemma_at_un(m, Op::ToDType(DType::F32), p, t);
    lemma_at_un(m, Op::SoftmaxLast, un(Op::ToDType(DType::F32), p), t);
}

/// The row of token `tok` is the sum, over the experts that were chosen for it, of what
/// each gives on its row of `flat`, times its renormalized weight.
pub proof fn law_token_gets_its_experts<V>(
    m: Meaning<V>,
    f: SparseMoe,
    flat: Val,
    probs: Val,
    plan: Seq<Seq<usize>>,
    tok: int,
    n: int,
    part: spec_fn(int) -> V,
)
    requires
        0 <= tok < plan.len() <= usize::MAX,
        1 <= n <= plan[tok].len() <= usize::MAX,
        ({
            let row = (m.un)(
                Op::Narrow { dim: 0, start: tok as usize, len: 1 },
                m.at(flat.term, 0),
            );
            let gates = (m.gates)(GateRule::Renormalized, plan[tok], m.at(probs.term, tok));
            forall|j: int|
                0 <= j < n ==> #[trigger] part(j) == (m.bin)(
                    Op::ScaleBy,
                    gated_row(m, f.experts[plan[tok][j] as int], row),
                    (m.pick)(j as usize, gates),
                )
        }),
        !(flat.term is Leaf),
    ensures
        ({
            let gates = gates_val(GateRule::Renormalized, probs, plan);
            m.at(f.token_sum(flat, gates, plan, tok, n).term, 0) == summed(
                m,
                part(0),
                |j: int| part(j + 1),
                n - 1,
            )
        }),
    decreases n,
{
    let gates = gates_val(GateRule::Renormalized, probs, plan);
    let j = n - 1;
    let cut = Op::Narrow { dim: 0, start: tok as usize, len: 1 };
    let xt = un(cut, flat);
    assert(m.at(xt.term, 0) == (m.un)(cut, m.at(flat.term, 0))) by {
        reveal(un);
    }
    let e = f.experts[plan[tok][j] as int];
    law_gated_block_of_each_position(m, e, xt, 0);
    let at = seq![(tok as usize, j as usize)];
    assert(at[0] == (tok as usize, j as usize));
    let w = pick_val(gates, at);
    assert(m.at(w.term, 0) == (m.pick)(j as usize, m.at(gates.term, tok)));
    lemma_at_bin(m, Op::ScaleBy, e.apply(xt), w, 0);
    assert(m.at(f.choice(flat, gates, plan, tok, j).term, 0) == part(j));
    if n > 1 {
        law_token_gets_its_experts(m, f, flat, probs, plan, tok, n - 1, part);
        lemma_at_bin(
            m,
            Op::Add,
            f.token_sum(flat, gates, plan, tok, n - 1),
            f.choice(flat, gates, plan, tok, j),
            0,
        );
        let later = |j: int| part(j + 1);
        assert(later(n - 2) == part(n - 1));
    }
}

/// The rows of the tokens stand one below the other in order: in every reading of rows
/// in which a join along the first axis puts rows below each other.
pub proof fn law_token_rows_in_order<E>(
    row: spec_fn(Val, int) -> E,
    f: SparseMoe,
    flat: Val,
    gates: Val,
    plan: Seq<Seq<usize>>,
    n: int,
    t: int,
)
    requires
        0 <= t < n <= plan.len() <= usize::MAX,
        forall|a: Val, b: Val, j: int|
            #[trigger] row(bin(Op::Cat(0), a, b), j) == (if j < a.shape.d0 {
                row(a, j)
            } else {
                row(b, j - a.shape.d0)
            }),
        forall|i: int|
            0 <= i < n ==> (#[trigger] f.token_sum(
                flat,
                gates,
                plan,
                i,
                plan[i].len() as int,
            )).shape.d0 == 1,
    ensures
        row(f.token_rows(flat, gates, plan, n), t) == row(
            f.token_sum(flat, gates, plan, t, plan[t].len() as int),
            0,
        ),
        f.token_rows(flat, gates, plan, n).shape.d0 == n,
    decreases n,
{
    let last = f.token_sum(flat, gates, plan, n - 1, plan[n - 1].len() as int);
    assert(last.shape.d0 == 1);
    if n > 1 {
        if t < n - 1 {
            law_token_rows_in_order(row, f, flat, gates, plan, n - 1, t);
        } else {
            law_token_rows_in_order(row, f, flat, gates, plan, n - 1, 0);
        }
        let before = f.token_rows(flat, gates, plan, n - 1);
        assert(bin(Op::Cat(0), before, last).shape.d0 == n) by {
            reveal(bin);
        }
        assert(row(bin(Op::Cat(0), before, last), t) == (if t < before.shape.d0 {
            row(before, t)
        } else {
            row(last, t - before.shape.d0)
        }));
    }
}

/// The block gives a position what its experts gave it, plus, where there is a shared
/// expert, what that gives on it times the logistic function of its own gate.
pub proof fn law_shared_expert_is_added<V>(
    m: Meaning<V>,
    f: SparseMoe,
    x: Val,
    probs: Val,
    plan: Seq<Seq<usize>>,
    i: int,
)
    ensures
        ({
            let gates = gates_val(GateRule::Renormalized, probs, plan);
            let rows = f.token_rows(SparseMoe::flat(x), gates, plan, plan.len() as int);
            let v = m.at(x.term, i);
            m.at(f.out(x, probs, plan).term, i) == (match f.shared {
                None => m.at(rows.term, i),
                Some(s) => ({
                    let raw = (m.un)(Op::ToDType(DType::F32), m.projected(s.gate, v));
                    let gate = (m.un)(Op::ToDType(x.dtype), (m.un)(Op::Sigmoid, raw));
                    (m.bin)(
                        Op::Add,
                        m.at(rows.term, i),
                        (m.bin)(Op::BroadcastMul, gated_row(m, s.mlp, v), gate),
                    )
                }),
            })
        }),
{
    let gates = gates_val(GateRule::Renormalized, probs, plan);
    let rows = f.token_rows(SparseMoe::flat(x), gates, plan, plan.len() as int);
    let back = Op::Reshape(d3(x.shape.d0, x.shape.d1, x.shape.d2));
    let routed = un(back, rows);
    lemma_laid_out(m, back, rows, i);
    if let Some(s) = f.shared {
        let (wide, to) = (Op::ToDType(DType::F32), Op::ToDType(x.dtype));
        let p = s.gate.apply(x);
        let sig = un(Op::Sigmoid, un(wide, p));
        let y = s.mlp.apply(x);
        lemma_at_proj(m, s.gate, x, i);
        lemma_at_un(m, wide, p, i);
        lemma_at_un(m, Op::Sigmoid, un(wide, p), i);
        lemma_at_un(m, to, sig, i);
        law_gated_block_of_each_position(m, s.mlp, x, i);
        lemma_at_bin(m, Op::BroadcastMul, y, un(to, sig), i);
        lemma_at_bin(m, Op::Add, routed, bin(Op::BroadcastMul, y, un(to, sig)), i);
    }
}

/// Two blocks that differ only in their shared experts: the output of each plus what
/// the shared expert of the other gives, through its gate, is the same.
pub proof fn law_shared_experts_can_be_exchanged<V>(
    m: Meaning<V>,
    f: SparseMoe,
    g: SparseMoe,
    x: Val,
    probs: Val,
    plan: Seq<Seq<usize>>,
    i: int,
    first: V,
    second: V,
)
    requires
        m.sums(),
        f.experts == g.experts,
        f.shared matches Some(s) && g.shared matches Some(t) && ({
            let (wide, to) = (Op::ToDType(DType::F32), Op::ToDType(x.dtype));
            let v = m.at(x.term, i);
            let gate = |p: V| (m.un)(to, (m.un)(Op::Sigmoid, (m.un)(wide, p)));
            &&& first == (m.bin)(
                Op::BroadcastMul,
                gated_row(m, s.mlp, v),
                gate(m.projected(s.gate, v)),
            )
            &&& second == (m.bin)(
                Op::BroadcastMul,
                gated_row(m, t.mlp, v),
                gate(m.projected(t.gate, v)),
            )
        }),
    ensures
        (m.bin)(Op::Add, m.at(f.out(x, probs, plan).term, i), second) == (m.bin)(
            Op::Add,
            m.at(g.out(x, probs, plan).term, i),
            first,
        ),
{
    law_shared_expert_is_added(m, f, x, probs, plan, i);
    law_shared_expert_is_added(m, g, x, probs, plan, i);
    let gates = gates_val(GateRule::Renormalized, probs, plan);
    let n = plan.len() as int;
    let flat = SparseMoe::flat(x);
    lemma_same_rows(f, g, flat, gates, plan, n);
    let r = m.at(f.token_rows(flat, gates, plan, n).term, i);
    assert((m.bin)(Op::Add, (m.bin)(Op::Add, r, first), second) == (m.bin)(
        Op::Add,
        r,
        (m.bin)(Op::Add, first, second),
    ));
    assert((m.bin)(Op::Add, (m.bin)(Op::Add, r, second), first) == (m.bin)(
        Op::Add,
        r,
        (m.bin)(Op::Add, second, first),
    ));
    assert((m.bin)(Op::Add, first, second) == (m.bin)(Op::Add, second, first));
}

/// What tokens get depends on the experts alone.
proof fn lemma_same_rows(
    f: SparseMoe,
    g: SparseMoe,
    flat: Val,
    gates: Val,
    plan: Seq<Seq<usize>>,
    n: int,
)
    requires
        f.experts == g.experts,
    ensures
        f.token_rows(flat, gates, plan, n) == g.token_rows(flat, gates, plan, n),
    decreases n,
{
    lemma_same_sums(f, g, flat, gates, plan, n - 1, plan[n - 1].len() as int);
    if n > 1 {
        lemma_same_rows(f, g, flat, gates, plan, n - 1);
    }
}

proof fn lemma_same_sums(
    f: SparseMoe,
    g: SparseMoe,
    flat: Val,
    gates: Val,
    plan: Seq<Seq<usize>>,
    tok: int,
    n: int,
)
    requires
        f.experts == g.experts,
    ensures
        f.token_sum(flat, gates, plan, tok, n) == g.token_sum(flat, gates, plan, tok, n),
    decreases n,
{
    if n > 1 {
        lemma_same_sums(f, g, flat, gates, plan, tok, n - 1);
    }
}

/// How strongly a position writes, and how much of the state it keeps: the logistic
/// function of one projection, and the exponential of the negated rate of the layer times
/// the soft plus of another with its bias.
pub proof fn law_rates_of_each_position<V>(m: Meaning<V>, g: GatedDeltaNet, x: Val, i: int)
    ensures
        ({
            let wide = Op::ToDType(DType::F32);
            let v = m.at(x.term, i);
            let a = (m.bin)(
                Op::BroadcastAdd,
                (m.un)(wide, m.projected(g.in_proj_a, v)),
                (m.leaf)(Op::Param(g.dt_bias)),
            );
            let soft = (m.un)(Op::Log, (m.un)(Op::AddScalar(Scalar::Int(1)), (m.un)(Op::Exp, a)));
            &&& m.at(g.beta(x).term, i) == (m.un)(
                Op::Sigmoid,
                (m.un)(wide, m.projected(g.in_proj_b, v)),
            )
            &&& m.at(g.decay(x).term, i) == (m.un)(
                Op::Exp,
                (m.bin)(Op::BroadcastMul, soft, (m.leaf)(Op::Param(g.neg_a))),
            )
            &&& m.len(g.beta(x).term) == m.len(x.term)
        }),
{
    let wide = Op::ToDType(DType::F32);
    let b = g.in_proj_b.apply(x);
    lemma_at_proj(m, g.in_proj_b, x, i);
    lemma_at_un(m, wide, b, i);
    lemma_at_un(m, Op::Sigmoid, un(wide, b), i);
    let p = g.in_proj_a.apply(x);
    lemma_at_proj(m, g.in_proj_a, x, i);
    lemma_at_un(m, wide, p, i);
    let bias = leaf(Op::Param(g.dt_bias));
    let row = un(Op::Reshape(d2(1, bias.shape.d0)), bias);
    lemma_laid_out(m, Op::Reshape(d2(1, bias.shape.d0)), bias, i);
    lemma_at_bin(m, Op::BroadcastAdd, un(wide, p), row, i);
    let a = biased(un(wide, p), bias);
    let plus = Op::AddScalar(Scalar::Int(1));
    lemma_at_un(m, Op::Exp, a, i);
    lemma_at_un(m, plus, un(Op::Exp, a), i);
    lemma_at_un(m, Op::Log, un(plus, un(Op::Exp, a)), i);
    let neg = leaf(Op::Param(g.neg_a));
    let nr = un(Op::Reshape(d2(1, g.n_v_heads)), neg);
    lemma_laid_out(m, Op::Reshape(d2(1, g.n_v_heads)), neg, i);
    lemma_at_bin(m, Op::BroadcastMul, softplus_of(a), nr, i);
    lemma_at_un(m, Op::Exp, bin(Op::BroadcastMul, softplus_of(a), nr), i);
}

/// The convolution at a position: every tap of the kernel times the input as far back
/// as the tap stands, added up. Input `i + j` of `padded` meets tap `j`.
pub proof fn law_convolution_of_each_position<V>(
    m: Meaning<V>,
    padded: Val,
    weight: Val,
    len: usize,
    first: usize,
    from: int,
    to: int,
    i: int,
    part: spec_fn(int) -> V,
)
    requires
        sideways(padded.term) && !sideways(weight.term),
        0 <= from <= to <= usize::MAX,
        forall|j: int|
            0 <= j <= usize::MAX ==> #[trigger] part(j) == (m.bin)(
                Op::BroadcastMul,
                m.at(padded.term, j + i),
                (m.un)(Op::Narrow { dim: 1, start: j as usize, len: 1 }, m.at(weight.term, i)),
            ),
    ensures
        m.at(
            taps(tap(padded, weight, first, len), padded, weight, len, from, to).term,
            i,
        ) == summed(m, part(first as int), |j: int| part(from + j), to - from),
    decreases to - from,
{
    let j = if to <= from {
        first
    } else {
        (to - 1) as usize
    };
    let x = un(Op::Narrow { dim: 1, start: j, len }, padded);
    let w = un(Op::Narrow { dim: 1, start: j, len: 1 }, weight);
    lemma_sliced(m, j, len, padded, i);
    lemma_at_cut(m, 1, j, 1, weight, i);
    lemma_at_bin(m, Op::BroadcastMul, x, w, i);
    assert(m.at(tap(padded, weight, j, len).term, i) == part(j as int));
    let later = |j: int| part(from + j);
    if to > from {
        law_convolution_of_each_position(
            m,
            padded,
            weight,
            len,
            first,
            from,
            to - 1,
            i,
            part,
        );
        let before = taps(tap(padded, weight, first, len), padded, weight, len, from, to - 1);
        lemma_at_bin(m, Op::Add, before, tap(padded, weight, j, len), i);
        assert(later(to - from - 1) == part(to - 1));
    }
}

/// What the scan is given at a position: queries and keys are their slices of the
/// activated convolution over their lengths, the queries scaled; values are theirs.
pub proof fn law_scan_inputs_of_each_position<V>(
    m: Meaning<V>,
    g: GatedDeltaNet,
    x: Val,
    conv: Val,
    len: usize,
    i: int,
)
    requires
        sideways(conv.term),
    ensures
        ({
            let s = g.scan_in(x, conv, len);
            let keys = sat_product(g.n_k_heads, g.d_k);
            let values = sat_product(g.n_v_heads, g.d_v);
            let c = m.at(conv.term, i);
            let act = (m.bin)(Op::Mul, c, (m.un)(Op::Sigmoid, c));
            let cut = |start: usize, len: usize| (m.un)(Op::Narrow { dim: 1, start, len }, act);
            let unit = |v: V|
                (m.bin)(
                    Op::BroadcastDiv,
                    v,
                    (m.un)(
                        Op::AddScalar(Scalar::F64(0x3eb0_c6f7_a0b5_ed8d)),
                        (m.un)(Op::Sqrt, (m.un)(Op::SumKeep(2), (m.un)(Op::Sqr, v))),
                    ),
                );
            &&& m.at(s.q.term, i) == (m.un)(
                Op::MulScalar(Scalar::PowNegHalf(g.d_k)),
                unit(cut(0, keys)),
            )
            &&& m.at(s.k.term, i) == unit(cut(keys, keys))
            &&& m.at(s.v.term, i) == cut(sat_product(2, keys), values)
            &&& s.beta == g.beta(x) && s.decay == g.decay(x)
        }),
{
    let keys = sat_product(g.n_k_heads, g.d_k);
    let values = sat_product(g.n_v_heads, g.d_v);
    let sig = un(Op::Sigmoid, conv);
    let act = bin(Op::Mul, conv, sig);
    let turn = Op::Transpose(0, 1);
    let rows = un(turn, act);
    lemma_at_un(m, Op::Sigmoid, conv, i);
    lemma_at_bin(m, Op::Mul, conv, sig, i);
    lemma_laid_out(m, turn, act, i);
    lemma_bin_extent(m, Op::Mul, conv, sig);
    lemma_un_extent(m, turn, act);
    let two = sat_product(2, keys);
    lemma_at_cut(m, 1, 0, keys, rows, i);
    lemma_at_cut(m, 1, keys, keys, rows, i);
    lemma_at_cut(m, 1, two, values, rows, i);
    let split = Op::Reshape(d3(len, g.n_k_heads, g.d_k));
    let q0 = un(Op::Narrow { dim: 1, start: 0, len: keys }, rows);
    let k0 = un(Op::Narrow { dim: 1, start: keys, len: keys }, rows);
    let v0 = un(Op::Narrow { dim: 1, start: two, len: values }, rows);
    let (q, k) = (un(split, q0), un(split, k0));
    lemma_laid_out(m, split, q0, i);
    lemma_laid_out(m, split, k0, i);
    lemma_laid_out(m, Op::Reshape(d3(len, g.n_v_heads, g.d_v)), v0, i);
    assert(q.shape.last_axis() == 2 && k.shape.last_axis() == 2) by {
        reveal(un);
    }
    law_length_norm_of_each_position(m, q, i);
    law_length_norm_of_each_position(m, k, i);
    lemma_at_un(m, Op::MulScalar(Scalar::PowNegHalf(g.d_k)), l2_normed(q), i);
}

/// The output of a position: what the scan gives there over the root of the mean of its
/// squares, times the weight, gated by the activated projection `z`, and projected.
pub proof fn law_delta_output_of_each_position<V>(
    m: Meaning<V>,
    g: GatedDeltaNet,
    x: Val,
    o: Val,
    len: usize,
    dtype: DType,
    i: int,
)
    ensures
        ({
            let v = m.at(o.term, i);
            let mean = (m.un)(Op::MeanKeep(o.shape.last_axis()), (m.un)(Op::Sqr, v));
            let root = (m.un)(Op::Sqrt, (m.un)(Op::AddScalar(Scalar::F64(g.eps)), mean));
            let normed = (m.bin)(
                Op::BroadcastMul,
                (m.bin)(Op::BroadcastDiv, v, root),
                (m.leaf)(Op::Param(g.norm_weight)),
            );
            let z = (m.un)(Op::ToDType(DType::F32), m.projected(g.in_proj_z, m.at(x.term, i)));
            let gate = (m.bin)(Op::Mul, z, (m.un)(Op::Sigmoid, z));
            m.at(g.output(x, o, len, dtype).term, i) == m.projected(
                g.out_proj,
                (m.un)(Op::ToDType(dtype), (m.bin)(Op::Mul, normed, gate)),
            )
        }),
{
    let wide = Op::ToDType(DType::F32);
    let p = g.in_proj_z.apply(x);
    let split = Op::Reshape(d3(len, g.n_v_heads, g.d_v));
    let z = un(split, un(wide, p));
    lemma_at_proj(m, g.in_proj_z, x, i);
    lemma_at_un(m, wide, p, i);
    lemma_laid_out(m, split, un(wide, p), i);
    let w0 = leaf(Op::Param(g.norm_weight));
    let w = un(Op::Reshape(d3(1, 1, g.d_v)), w0);
    lemma_laid_out(m, Op::Reshape(d3(1, 1, g.d_v)), w0, i);
    let eps = Scalar::F64(g.eps);
    law_rms_of_each_position(m, o, eps, i);
    let normed = bin(Op::BroadcastMul, rms_normalized(o, eps), w);
    lemma_at_bin(m, Op::BroadcastMul, rms_normalized(o, eps), w, i);
    lemma_at_un(m, Op::Sigmoid, z, i);
    lemma_at_bin(m, Op::Mul, z, un(Op::Sigmoid, z), i);
    let gated = bin(Op::Mul, normed, silu_of(z));
    lemma_at_bin(m, Op::Mul, normed, silu_of(z), i);
    let flat = Op::Reshape(d3(1, len, sat_product(g.n_v_heads, g.d_v)));
    lemma_laid_out(m, flat, gated, i);
    lemma_at_un(m, Op::ToDType(dtype), un(flat, gated), i);
    lemma_at_proj(m, g.out_proj, un(Op::ToDType(dtype), un(flat, gated)), i);
}

/// The layer reads its output at a position from the state after it, and leaves the
/// state after the last one: `states` begins with what the buffer holds and goes on by
/// the key, the value, the write strength and the decay of each position.
pub proof fn law_state_goes_from_position_to_position<V>(
    m: Meaning<V>,
    g: GatedDeltaNet,
    device: Device,
    x: Val,
    conv: Val,
    len: usize,
    dtype: DType,
    sbuf: Buf,
    bufs: Bufs,
    states: spec_fn(int) -> V,
    i: int,
)
    requires
        0 <= i < m.len(x.term),
        g.scanned(device, x, conv, len, dtype, sbuf, bufs) is Ok,
        states(0) == m.at(bufs[sbuf.id as int], 0),
        ({
            let s = g.scan_in(x, conv, len);
            forall|n: int|
                0 <= n < m.len(x.term) ==> #[trigger] states(n + 1) == (m.step)(
                    states(n),
                    m.at(s.k.term, n),
                    m.at(s.v.term, n),
                    m.at(g.beta(x).term, n),
                    m.at(g.decay(x).term, n),
                )
        }),
    ensures
        exists|o: Val|
            #[trigger] m.at(o.term, i) == (m.emit)(
                states(i + 1),
                m.at(g.scan_in(x, conv, len).q.term, i),
            ) && g.scanned(device, x, conv, len, dtype, sbuf, bufs)->Ok_0.0 == g.output(
                x,
                o,
                len,
                dtype,
            ),
        m.at(g.scanned(device, x, conv, len, dtype, sbuf, bufs)->Ok_0.1[sbuf.id as int], 0)
            == states(m.len(x.term)),
{
    let s = g.scan_in(x, conv, len);
    let t = bufs[sbuf.id as int];
    let o = scan_output(s.q, s.k, s.v, s.beta, s.decay, t);
    let left = scan_state(s.q, s.k, s.v, s.beta, s.decay, t);
    law_rates_of_each_position(m, g, x, 0);
    lemma_states(m, o.term, left, x, g, conv, len, t, states, i + 1);
    lemma_states(m, o.term, left, x, g, conv, len, t, states, m.len(x.term));
    assert(m.at(o.term, i) == (m.emit)(states(i + 1), m.at(s.q.term, i)));
}

/// The states of a scan.
proof fn lemma_states<V>(
    m: Meaning<V>,
    o: Term,
    left: Term,
    x: Val,
    g: GatedDeltaNet,
    conv: Val,
    len: usize,
    t: Term,
    states: spec_fn(int) -> V,
    n: int,
)
    requires
        ({
            let s = g.scan_in(x, conv, len);
            &&& o == scan_output(s.q, s.k, s.v, s.beta, s.decay, t).term
            &&& left == scan_state(s.q, s.k, s.v, s.beta, s.decay, t)
            &&& forall|n: int|
                0 <= n < m.len(x.term) ==> #[trigger] states(n + 1) == (m.step)(
                    states(n),
                    m.at(s.k.term, n),
                    m.at(s.v.term, n),
                    m.at(g.beta(x).term, n),
                    m.at(g.decay(x).term, n),
                )
        }),
        states(0) == m.at(t, 0),
        0 <= n <= m.len(x.term),
    ensures
        m.after(o, n) == states(n),
        m.after(left, n) == states(n),
    decreases n,
{
    if n > 0 {
        lemma_states(m, o, left, x, g, conv, len, t, states, n - 1);
        assert(states((n - 1) + 1) == states(n));
    }
}

/// The convolution of a chunk sees what the state kept of the inputs before it, then the
/// projections of the chunk; the last of both stay for the next.
pub proof fn law_convolution_goes_on<V>(
    m: Meaning<V>,
    g: GatedDeltaNet,
    x: Val,
    state: GdnState,
    bufs: Bufs,
    j: int,
)
    requires
        g.conv_kernel >= 1,
        state.conv.current() matches Some(b) ==> sideways(bufs[b.id as int]),
        !sideways(x.term),
    ensures
        ({
            let kept = g.conv_kernel - 1;
            let flat = GatedDeltaNet::rows(x);
            m.at(g.padded(flat, state, bufs).term, j) == (if j < kept {
                match state.conv.current() {
                    Some(b) => m.at(bufs[b.id as int], 1 + j),
                    None => (m.leaf)(
                        Op::Zeros { shape: crate::shape::d1(g.conv_dim()), dtype: DType::F32 },
                    ),
                }
            } else {
                (m.un)(
                    Op::ToDType(DType::F32),
                    m.projected(g.in_proj_qkv, m.at(x.term, j - kept)),
                )
            })
        }),
{
    let kept = (g.conv_kernel - 1) as usize;
    let shape = d2(x.shape.d1, sat_product(x.shape.d0, x.shape.d2));
    let flat = GatedDeltaNet::rows(x);
    let wide = Op::ToDType(DType::F32);
    let p = g.in_proj_qkv.apply(flat);
    let turn = Op::Transpose(0, 1);
    let rows = un(wide, p);
    let new = un(turn, rows);
    let zeros = leaf(Op::Zeros { shape: d2(g.conv_dim(), kept), dtype: DType::F32 });
    let prev = match state.conv.current() {
        Some(b) => un(Op::Narrow { dim: 1, start: 1, len: kept }, held(bufs, b)),
        None => zeros,
    };
    lemma_laid_out(m, Op::Reshape(shape), x, j - kept);
    lemma_at_proj(m, g.in_proj_qkv, flat, j - kept);
    lemma_at_un(m, wide, p, j - kept);
    lemma_laid_out(m, turn, rows, j - kept);
    lemma_un_extent(m, Op::Reshape(shape), x);
    lemma_upright_proj(m, g.in_proj_qkv, flat);
    lemma_un_extent(m, wide, p);
    lemma_un_extent(m, turn, rows);
    if let Some(b) = state.conv.current() {
        lemma_sliced(m, 1, kept, held(bufs, b), j);
        lemma_un_extent(m, Op::Narrow { dim: 1, start: 1, len: kept }, held(bufs, b));
    }
    lemma_joined(m, Op::Cat(1), prev, new, j);
}

/// A chunk convolves its inputs with the whole kernel, each tap with the input as far
/// back as it stands, and scans what comes out. `part` is a tap times its input at
/// position `i`, and `later` the taps after the first.
pub proof fn law_chunk_convolves_and_scans<V>(
    m: Meaning<V>,
    g: GatedDeltaNet,
    device: Device,
    x: Val,
    state: GdnState,
    kept: (Seq<Buf>, Bufs),
    i: int,
    part: spec_fn(int) -> V,
    later: spec_fn(int) -> V,
)
    requires
        g.pass(device, x, state, kept.0, kept.1) is Ok,
        g.conv_kernel >= 1,
        !sideways(x.term),
        ({
            let inputs = g.padded(GatedDeltaNet::rows(x), state, kept.1);
            forall|j: int|
                0 <= j <= usize::MAX ==> #[trigger] part(j) == (m.bin)(
                    Op::BroadcastMul,
                    m.at(inputs.term, j + i),
                    (m.un)(
                        Op::Narrow { dim: 1, start: j as usize, len: 1 },
                        (m.leaf)(Op::Param(g.conv1d_weight)),
                    ),
                )
        }),
        forall|j: int| #[trigger] later(j) == part(1 + j),
    ensures
        exists|conv: Val, sbuf: Buf, b: Bufs|
            {
                let o = g.pass(device, x, state, kept.0, kept.1)->Ok_0;
                &&& m.at(conv.term, i) == summed(m, part(0), later, g.conv_kernel - 1)
                &&& #[trigger] g.scanned(
                    device,
                    GatedDeltaNet::rows(x),
                    conv,
                    x.shape.d1,
                    x.dtype,
                    sbuf,
                    b,
                ) == Ok::<(Val, Bufs), Error>((o.out, o.bufs))
            },
{
    let len = x.shape.d1;
    let flat = GatedDeltaNet::rows(x);
    let inputs = g.padded(flat, state, kept.1);
    let w = leaf(Op::Param(g.conv1d_weight));
    let kernel = g.conv_kernel as int;
    let shape = d2(x.shape.d1, sat_product(x.shape.d0, x.shape.d2));
    let wide = Op::ToDType(DType::F32);
    let p = g.in_proj_qkv.apply(flat);
    let turn = Op::Transpose(0, 1);
    lemma_un_extent(m, Op::Reshape(shape), x);
    lemma_upright_proj(m, g.in_proj_qkv, flat);
    lemma_un_extent(m, wide, p);
    lemma_un_extent(m, turn, un(wide, p));
    let held_before = match state.conv.current() {
        Some(b) => un(
            Op::Narrow { dim: 1, start: 1, len: (g.conv_kernel - 1) as usize },
            held(kept.1, b),
        ),
        None => leaf(
            Op::Zeros {
                shape: d2(g.conv_dim(), (g.conv_kernel - 1) as usize),
                dtype: DType::F32,
            },
        ),
    };
    lemma_bin_extent(m, Op::Cat(1), held_before, un(turn, un(wide, p)));
    law_convolution_of_each_position(m, inputs, w, len, 0, 1, kernel, i, part);
    assert((|j: int| part(1 + j)) =~= later);
    let conv = taps(tap(inputs, w, 0, len), inputs, w, len, 1, kernel);
    let o = g.pass(device, x, state, kept.0, kept.1)->Ok_0;
    let window = un(
        Op::Narrow {
            dim: 1,
            start: if len == 0 {
                0
            } else {
                (len - 1) as usize
            },
            len: g.conv_kernel,
        },
        inputs,
    );
    let cbuf = state.conv.target(kept.0, g.conv_shape());
    let buffers = state.conv.buffers_after(kept.0, g.conv_shape());
    let held_now = state.conv.bufs_after(kept.0, kept.1, g.conv_shape()).insert(
        cbuf.id as int,
        window.term,
    );
    let sbuf = state.s.target(buffers, g.s_shape());
    let b = state.s.bufs_after(buffers, held_now, g.s_shape());
    assert(g.scanned(device, flat, conv, len, x.dtype, sbuf, b) == Ok::<(Val, Bufs), Error>(
        (o.out, o.bufs),
    ));
}

/// A projection keeps positions on their axis.
proof fn lemma_upright_proj<V>(m: Meaning<V>, p: crate::loader::Proj, x: Val)
    requires
        !sideways(x.term),
    ensures
        !sideways(p.apply(x).term),
{
    reveal(un);
    reveal(bin);
    reveal_with_fuel(sideways, 3);
}

/// A layer adds to its input what the mixer gives on its norm, and norms the sum.
pub proof fn law_layer_adds_the_mixer<V>(
    m: Meaning<V>,
    l: DecoderLayer,
    device: Device,
    mode: Mode,
    rotary: Rotary,
    x: Val,
    state: MixState,
    kept: (Seq<Buf>, Bufs),
    i: int,
)
    requires
        l.halfway(device, mode, rotary, x, state, kept.0, kept.1) is Ok,
    ensures
        ({
            let h = l.halfway(device, mode, rotary, x, state, kept.0, kept.1)->Ok_0;
            let y = l.input_layernorm.apply(x);
            let mixed = l.mixer.mixed(device, mode, rotary, y, state, kept.0, kept.1);
            let a = mixed->Ok_0;
            let sum = (m.bin)(Op::Add, m.at(x.term, i), m.at(a.out.term, i));
            let n = l.post_attention_layernorm;
            &&& m.at(h.x.term, i) == sum
            &&& m.at(h.normed.term, i) == normed_row(m, n, x.dtype, x.shape.last_axis(), sum)
            &&& h.probs == (match l.ffn {
                Ffn::Dense(_) => None,
                Ffn::Moe(f) => Some(f.probs(h.normed)),
            })
            &&& h.bufs == a.bufs && h.buffers == a.buffers && h.state == a.state
        }),
{
    reveal(DecoderLayer::halfway);
    let y = l.input_layernorm.apply(x);
    let a = l.mixer.mixed(device, mode, rotary, y, state, kept.0, kept.1)->Ok_0;
    let s = bin(Op::Add, x, a.out);
    assert(s.shape == x.shape && s.dtype == x.dtype) by {
        reveal(bin);
    }
    lemma_at_bin(m, Op::Add, x, a.out, i);
    law_norm_of_each_position(m, l.post_attention_layernorm, s, i);
}

/// A layer adds to that sum what the feed-forward block gives on its norm.
pub proof fn law_layer_adds_the_feed_forward<V>(
    m: Meaning<V>,
    l: DecoderLayer,
    x: Val,
    normed: Val,
    probs: Val,
    plan: Seq<Seq<usize>>,
    i: int,
)
    ensures
        m.at(l.finished(x, normed, Some(probs), plan).term, i) == (m.bin)(
            Op::Add,
            m.at(x.term, i),
            match l.ffn {
                Ffn::Dense(f) => gated_row(m, f, m.at(normed.term, i)),
                Ffn::Moe(f) => m.at(f.out(normed, probs, plan).term, i),
            },
        ),
{
    let y = match l.ffn {
        Ffn::Dense(f) => f.apply(normed),
        Ffn::Moe(f) => f.out(normed, probs, plan),
    };
    lemma_at_bin(m, Op::Add, x, y, i);
    if let Ffn::Dense(f) = l.ffn {
        law_gated_block_of_each_position(m, f, normed, i);
    }
}

/// A layer whose mixer and feed-forward block give nothing passes its input on.
pub proof fn law_silent_branches_pass_the_input_on<V>(
    m: Meaning<V>,
    l: DecoderLayer,
    device: Device,
    mode: Mode,
    rotary: Rotary,
    x: Val,
    state: MixState,
    kept: (Seq<Buf>, Bufs),
    z: V,
    i: int,
)
    requires
        m.adds_nothing(z),
        l.ffn is Dense,
        forall|v: V| #[trigger] m.projected(l.ffn->Dense_0.down_proj, v) == z,
        l.halfway(device, mode, rotary, x, state, kept.0, kept.1) is Ok,
        ({
            let y = l.input_layernorm.apply(x);
            let a = l.mixer.mixed(device, mode, rotary, y, state, kept.0, kept.1);
            m.at(a->Ok_0.out.term, i) == z
        }),
    ensures
        ({
            let h = l.halfway(device, mode, rotary, x, state, kept.0, kept.1)->Ok_0;
            m.at(l.finished(h.x, h.normed, h.probs, Seq::empty()).term, i) == m.at(x.term, i)
        }),
{
    law_layer_adds_the_mixer(m, l, device, mode, rotary, x, state, kept, i);
    let h = l.halfway(device, mode, rotary, x, state, kept.0, kept.1)->Ok_0;
    law_layer_adds_the_feed_forward(m, l, h.x, h.normed, h.x, Seq::empty(), i);
    assert((m.bin)(Op::Add, m.at(x.term, i), z) == m.at(x.term, i));
}

/// The logits of a pass are the head on the norm of the last of its positions; those of
/// a step, of its only one.
pub proof fn law_logits_of_the_last_position<V>(
    m: Meaning<V>,
    t: Model,
    device: Device,
    task: Task,
    x: Val,
    bufs: Bufs,
    i: int,
)
    requires
        t.tail(device, task, x, bufs) is Ok,
        !sideways(x.term),
        task matches Task::Forward { seq } ==> seq > 0,
    ensures
        ({
            let v = m.at(x.term, i);
            let axis = x.shape.last_axis();
            m.at(t.tail(device, task, x, bufs)->Ok_0.0.term, i) == m.projected(
                t.lm_head,
                match task {
                    Task::Forward { seq } => normed_row(
                        m,
                        t.norm,
                        x.dtype,
                        axis,
                        (m.un)(Op::Narrow { dim: 1, start: (seq - 1) as usize, len: 1 }, v),
                    ),
                    Task::Step { ctx } => (m.un)(
                        Op::Select { dim: 1, index: 0 },
                        normed_row(m, t.norm, x.dtype, axis, v),
                    ),
                },
            )
        }),
{
    match task {
        Task::Forward { seq } => {
            let last = un(Op::Narrow { dim: 1, start: (seq - 1) as usize, len: 1 }, x);
            lemma_at_cut(m, 1, (seq - 1) as usize, 1, x, i);
            assert(last.dtype == x.dtype && last.shape.last_axis() == x.shape.last_axis()) by {
                reveal(un);
            }
            law_norm_of_each_position(m, t.norm, last, i);
            lemma_at_proj(m, t.lm_head, t.norm.apply(last), i);
        },
        Task::Step { ctx } => {
            let one = Op::Select { dim: 1, index: 0 };
            law_norm_of_each_position(m, t.norm, x, i);
            lemma_at_un(m, one, t.norm.apply(x), i);
            lemma_at_proj(m, t.lm_head, un(one, t.norm.apply(x)), i);
        },
    }
}

/// A model with one layer more does what the model does, and then what the layer does.
pub proof fn law_last_layer_comes_last(
    t: Model,
    u: Model,
    device: Device,
    mode: Mode,
    i: int,
    f: Flow,
)
    requires
        u.layers.len() == t.layers.len() + 1,
        u.rotary == t.rotary,
        forall|j: int| 0 <= j < t.layers.len() ==> u.layers[j] == #[trigger] t.layers[j],
        0 <= i <= t.layers.len(),
    ensures
        u.run(device, mode, i, f) == (match t.run(device, mode, i, f) {
            Ran::Through(g) => ({
                let k = t.layers.len() as int;
                let l = u.layers[k];
                match l.halfway(device, mode, u.rotary, g.x, g.states[k], g.buffers, g.bufs) {
                    Err(e) => Ran::Failed(
                        Failure {
                            error: e.error,
                            bufs: e.bufs,
                            buffers: e.buffers,
                            states: g.states.update(k, e.state),
                        },
                    ),
                    Ok(h) => ({
                        let states = g.states.update(k, h.state);
                        if l.host_routed() {
                            Ran::Paused(k, h, states)
                        } else {
                            Ran::Through(
                                Flow {
                                    x: l.finished(h.x, h.normed, h.probs, Seq::empty()),
                                    bufs: h.bufs,
                                    buffers: h.buffers,
                                    states,
                                },
                            )
                        }
                    }),
                }
            }),
            other => other,
        }),
    decreases t.layers.len() - i,
{
    if i < t.layers.len() {
        let l = t.layers[i];
        assert(u.layers[i] == l);
        if let Ok(h) = l.halfway(device, mode, t.rotary, f.x, f.states[i], f.buffers, f.bufs) {
            if !l.host_routed() {
                let x = l.finished(h.x, h.normed, h.probs, Seq::empty());
                let states = f.states.update(i, h.state);
                law_last_layer_comes_last(
                    t,
                    u,
                    device,
                    mode,
                    i + 1,
                    Flow { x, bufs: h.bufs, buffers: h.buffers, states },
                );
            }
        }
    } else {
        reveal_with_fuel(Model::run, 2);
    }
}

} // verus!
