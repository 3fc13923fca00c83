//! What the decoder does to the contents of a position.
use vstd::prelude::*;

use crate::contents::{
    lemma_at_bin, lemma_at_proj, lemma_at_tri, lemma_at_un, lemma_causal_score, lemma_listens,
};
use crate::dtype::DType;
use crate::gemma4::alike::lemma_folded_hits;
use crate::kv_cache::CatCache;
use crate::loader::Proj;
use crate::masks::causal;
use crate::mixture::{
    first_choices, lemma_added_rows, lemma_choices_ends, lemma_choices_next, summed,
};
use crate::positions::{
    attended, blocked_score, lemma_bin_extent, lemma_cell_product, lemma_cell_un, lemma_laid_out,
    lemma_looked_up, lemma_un_extent, Meaning,
};
use crate::qwen3_5::spans::lemma_view;
use crate::routing::{hits, lemma_hits_tokens, plan_within, token_ids};
use crate::shape::{d1, d2, d3, d4, sat_product, sat_sum};
use crate::tape::{
    bin, gates_val, ids_val, leaf, pick_val, tri, un, Buf, Bufs, GateRule, Op, Scalar, Val,
};
use crate::unlimited_ocr::attention::{Attention, Rotary};
use crate::unlimited_ocr::moe::{Mlp, MoE};
use crate::unlimited_ocr::text::{
    DecoderLayer, Failure, FeedForward, Flow, Ran, RmsNorm, TextModel,
};

verus! {

/// A gated block treats positions one by one: its gating projection, activated,
/// times the other projection, projected back.
pub proof fn law_gated_block_of_each_position<V>(m: Meaning<V>, f: Mlp, x: Val, i: int)
    ensures
        ({
            let v = m.at(x.term, i);
            m.at(f.apply(x).term, i) == m.projected(
                f.down_proj,
                (m.bin)(
                    Op::Mul,
                    (m.un)(Op::Silu, m.projected(f.gate_proj, v)),
                    m.projected(f.up_proj, v),
                ),
            )
        }),
        m.len(f.apply(x).term) == m.len(x.term),
{
    let g = f.gate_proj.apply(x);
    let u = f.up_proj.apply(x);
    lemma_at_proj(m, f.gate_proj, x, i);
    lemma_at_proj(m, f.up_proj, x, i);
    lemma_at_un(m, Op::Silu, g, i);
    lemma_at_bin(m, Op::Mul, un(Op::Silu, g), u, i);
    lemma_at_proj(m, f.down_proj, bin(Op::Mul, un(Op::Silu, g), u), i);
}

/// The sum over the first `e` experts at token `t`.
proof fn lemma_routed_at<V>(
    m: Meaning<V>,
    f: MoE,
    x: Val,
    gates: Val,
    plan: Seq<Seq<usize>>,
    e: int,
    t: int,
    part: spec_fn(int) -> V,
)
    requires
        m.sums(),
        0 <= e <= f.experts.len(),
        0 <= t < plan.len() < 0x1_0000_0000,
        forall|i: int| 0 <= i < plan.len() ==> #[trigger] plan[i].len() <= usize::MAX,
        plan_within(plan, f.experts.len() as int),
        forall|j: int|
            0 <= j < plan[t].len() ==> #[trigger] part(j) == (m.bin)(
                Op::BroadcastMul,
                m.at(f.experts[plan[t][j] as int].apply(x).term, t),
                (m.un)(Op::ToDType(x.dtype), (m.pick)(j as usize, m.at(gates.term, t))),
            ),
    ensures
        m.at(f.routed(x, gates, plan, e).term, t) == first_choices(
            m,
            (m.leaf)(Op::Zeros { shape: d1(x.shape.d0), dtype: DType::F32 }),
            plan[t],
            e,
            part,
        ),
    decreases e,
{
    let base = (m.leaf)(Op::Zeros { shape: d1(x.shape.d0), dtype: DType::F32 });
    let n = plan.len() as int;
    if e <= 0 {
        assert forall|j: int| 0 <= j < plan[t].len() implies #[trigger] plan[t][j]
            < f.experts.len() by {}
        lemma_choices_ends(m, base, plan[t], f.experts.len() as int, part);
    } else {
        let k = (e - 1) as usize;
        lemma_routed_at(m, f, x, gates, plan, e - 1, t, part);
        let before = f.routed(x, gates, plan, e - 1);
        let group = hits(plan, k, n);
        let own = f.experts[e - 1];
        let val = |j: usize|
            (m.bin)(
                Op::BroadcastMul,
                m.at(own.apply(x).term, t),
                (m.un)(Op::ToDType(x.dtype), (m.pick)(j, m.at(gates.term, t))),
            );
        lemma_folded_hits(m, m.at(before.term, t), plan, k, t, val, n);
        assert forall|j: int| 0 <= j < plan[t].len() && plan[t][j] == k implies #[trigger] part(j)
            == val(j as usize) by {}
        lemma_choices_next(m, base, plan[t], t as usize, k, val, part);
        if group.len() > 0 {
            let ids = ids_val(token_ids(group));
            let rows = bin(Op::IndexSelect(0), x, ids);
            let y = own.apply(rows);
            let w = un(Op::ToDType(x.dtype), pick_val(gates, group));
            let c = bin(Op::BroadcastMul, y, w);
            assert forall|i: int| 0 <= i < group.len() implies (#[trigger] group[i]).0
                < 0x1_0000_0000 by {
                assert(group.contains(group[i]));
                lemma_hits_tokens(plan, k, n, group[i]);
            }
            assert forall|i: int| 0 <= i < group.len() && (#[trigger] group[i]).0 == t implies m.at(
                c.term,
                i,
            ) == val(group[i].1) by {
                assert(token_ids(group)[i] as int == t);
                assert(m.at(rows.term, i) == m.at(x.term, t)) by {
                    reveal(bin);
                }
                law_gated_block_of_each_position(m, own, rows, i);
                law_gated_block_of_each_position(m, own, x, t);
                lemma_at_un(m, Op::ToDType(x.dtype), pick_val(gates, group), i);
                lemma_at_bin(m, Op::BroadcastMul, y, w, i);
            }
            lemma_added_rows(m, before, group, c, t, val, group.len() as int);
        }
    }
}

/// What the block gives a token: the outputs of the experts that were chosen for
/// it, each times its score, and the output of the shared block, all of it added
/// up. Experts that others chose, and the order in which experts run, do not matter.
pub proof fn law_token_gets_its_experts_and_the_shared_block<V>(
    m: Meaning<V>,
    f: MoE,
    x: Val,
    scores: Val,
    plan: Seq<Seq<usize>>,
    t: int,
    part: spec_fn(int) -> V,
)
    requires
        m.sums(),
        0 <= t < plan.len() < 0x1_0000_0000,
        forall|i: int| 0 <= i < plan.len() ==> #[trigger] plan[i].len() <= usize::MAX,
        plan_within(plan, f.experts.len() as int),
        ({
            let v = m.at(x.term, t);
            let gates = (m.gates)(GateRule::Raw, plan[t], m.at(scores.term, t));
            forall|j: int|
                0 <= j < plan[t].len() ==> #[trigger] part(j) == ({
                    let e = f.experts[plan[t][j] as int];
                    let hidden = (m.bin)(
                        Op::Mul,
                        (m.un)(Op::Silu, m.projected(e.gate_proj, v)),
                        m.projected(e.up_proj, v),
                    );
                    (m.bin)(
                        Op::BroadcastMul,
                        m.projected(e.down_proj, hidden),
                        (m.un)(Op::ToDType(x.dtype), (m.pick)(j as usize, gates)),
                    )
                })
        }),
    ensures
        ({
            let v = m.at(x.term, t);
            let rows = sat_product(x.shape.d0, x.shape.d1);
            let zeros = (m.leaf)(Op::Zeros { shape: d1(rows), dtype: DType::F32 });
            let s = f.shared;
            let hidden = (m.bin)(
                Op::Mul,
                (m.un)(Op::Silu, m.projected(s.gate_proj, v)),
                m.projected(s.up_proj, v),
            );
            m.at(f.out(x, scores, plan).term, t) == (m.bin)(
                Op::Add,
                summed(m, zeros, part, plan[t].len() as int),
                m.projected(s.down_proj, hidden),
            )
        }),
{
    let op = Op::Reshape(d2(sat_product(x.shape.d0, x.shape.d1), x.shape.d2));
    let xf = MoE::flat(x);
    let gates = gates_val(GateRule::Raw, scores, plan);
    let n = f.experts.len() as int;
    let rows = sat_product(x.shape.d0, x.shape.d1);
    let base = (m.leaf)(Op::Zeros { shape: d1(rows), dtype: DType::F32 });
    lemma_laid_out(m, op, x, t);
    assert(xf.dtype == x.dtype && xf.shape.d0 == rows) by {
        reveal(un);
    }
    assert forall|j: int| 0 <= j < plan[t].len() implies #[trigger] part(j) == (m.bin)(
        Op::BroadcastMul,
        m.at(f.experts[plan[t][j] as int].apply(xf).term, t),
        (m.un)(Op::ToDType(xf.dtype), (m.pick)(j as usize, m.at(gates.term, t))),
    ) by {
        law_gated_block_of_each_position(m, f.experts[plan[t][j] as int], xf, t);
    }
    lemma_routed_at(m, f, xf, gates, plan, n, t, part);
    assert forall|j: int| 0 <= j < plan[t].len() implies #[trigger] plan[t][j] < n by {}
    lemma_choices_ends(m, base, plan[t], n, part);
    let routed = f.routed(xf, gates, plan, n);
    let shared = f.shared.apply(xf);
    law_gated_block_of_each_position(m, f.shared, xf, t);
    lemma_at_bin(m, Op::Add, routed, shared, t);
    lemma_laid_out(
        m,
        Op::Reshape(d3(x.shape.d0, x.shape.d1, x.shape.d2)),
        bin(Op::Add, routed, shared),
        t,
    );
}

/// Two blocks that differ only in the shared block: the output of each plus what
/// the shared block of the other gives is the same. So each shared block is applied
/// to every token, and added once.
pub proof fn law_shared_blocks_can_be_exchanged<V>(
    m: Meaning<V>,
    f: MoE,
    g: MoE,
    x: Val,
    scores: Val,
    plan: Seq<Seq<usize>>,
    t: int,
)
    requires
        m.sums(),
        f.experts == g.experts,
        0 <= t < plan.len() < 0x1_0000_0000,
        forall|i: int| 0 <= i < plan.len() ==> #[trigger] plan[i].len() <= usize::MAX,
        plan_within(plan, f.experts.len() as int),
    ensures
        (m.bin)(Op::Add, m.at(f.out(x, scores, plan).term, t), m.at(g.shared.apply(x).term, t)) == (
        m.bin)(Op::Add, m.at(g.out(x, scores, plan).term, t), m.at(f.shared.apply(x).term, t)),
{
    let v = m.at(x.term, t);
    let gates = (m.gates)(GateRule::Raw, plan[t], m.at(scores.term, t));
    let part = |j: int|
        {
            let e = f.experts[plan[t][j] as int];
            let hidden = (m.bin)(
                Op::Mul,
                (m.un)(Op::Silu, m.projected(e.gate_proj, v)),
                m.projected(e.up_proj, v),
            );
            (m.bin)(
                Op::BroadcastMul,
                m.projected(e.down_proj, hidden),
                (m.un)(Op::ToDType(x.dtype), (m.pick)(j as usize, gates)),
            )
        };
    law_token_gets_its_experts_and_the_shared_block(m, f, x, scores, plan, t, part);
    law_token_gets_its_experts_and_the_shared_block(m, g, x, scores, plan, t, part);
    law_gated_block_of_each_position(m, f.shared, x, t);
    law_gated_block_of_each_position(m, g.shared, x, t);
    let zeros = (m.leaf)(
        Op::Zeros { shape: d1(sat_product(x.shape.d0, x.shape.d1)), dtype: DType::F32 },
    );
    let r = summed(m, zeros, part, plan[t].len() as int);
    let (a, b) = (m.at(f.shared.apply(x).term, t), m.at(g.shared.apply(x).term, t));
    assert((m.bin)(Op::Add, (m.bin)(Op::Add, r, a), b) == (m.bin)(
        Op::Add,
        r,
        (m.bin)(Op::Add, a, b),
    ));
    assert((m.bin)(Op::Add, (m.bin)(Op::Add, r, b), a) == (m.bin)(
        Op::Add,
        r,
        (m.bin)(Op::Add, b, a),
    ));
    assert((m.bin)(Op::Add, a, b) == (m.bin)(Op::Add, b, a));
}

/// The scores of a token are the softmax of its row, in single precision, times the
/// routing weights.
pub proof fn law_scores_of_each_token<V>(m: Meaning<V>, f: MoE, x: Val, t: int)
    ensures
        m.at(f.scores(x).term, t) == (m.un)(
            Op::SoftmaxLast,
            (m.bin)(
                Op::MatMul,
                (m.un)(Op::ToDType(DType::F32), m.at(x.term, t)),
                (m.leaf)(Op::Param(f.gate_w)),
            ),
        ),
{
    let xf = MoE::flat(x);
    let wide = un(Op::ToDType(DType::F32), xf);
    let g = leaf(Op::Param(f.gate_w));
    let gt = un(Op::Transpose(0, 1), g);
    lemma_laid_out(m, Op::Reshape(d2(sat_product(x.shape.d0, x.shape.d1), x.shape.d2)), x, t);
    lemma_at_un(m, Op::ToDType(DType::F32), xf, t);
    lemma_laid_out(m, Op::Transpose(0, 1), g, t);
    let logits = bin(Op::MatMul, wide, gt);
    assert(m.at(logits.term, t) == (m.bin)(Op::MatMul, m.at(wide.term, t), m.at(gt.term, t))) by {
        reveal(un);
        reveal(bin);
    }
    lemma_at_un(m, Op::SoftmaxLast, logits, t);
}

/// A head is rotated by the row of its own position, counted from `pos` on.
pub proof fn law_rotation_follows_position<V>(m: Meaning<V>, r: Rotary, x: Val, pos: usize, i: int)
    ensures
        m.at(r.at(x, pos).term, i) == (m.tri)(
            Op::Rope,
            m.at(x.term, i),
            (m.un)(Op::ToDType(x.dtype), (m.row)(r.cos, pos + i)),
            (m.un)(Op::ToDType(x.dtype), (m.row)(r.sin, pos + i)),
        ),
        m.len(r.at(x, pos).term) == m.len(x.term),
{
    let rows = Op::Narrow { dim: 0, start: pos, len: x.shape.d2 };
    let to = Op::ToDType(x.dtype);
    let (c, s) = (un(rows, leaf(Op::Param(r.cos))), un(rows, leaf(Op::Param(r.sin))));
    lemma_looked_up(m, r.cos, pos, x.shape.d2, i);
    lemma_looked_up(m, r.sin, pos, x.shape.d2, i);
    lemma_at_un(m, to, c, i);
    lemma_at_un(m, to, s, i);
    lemma_at_tri(m, Op::Rope, x, un(to, c), un(to, s), i);
}

/// Heads of a projection hold what the projection holds.
proof fn lemma_heads_at<V>(m: Meaning<V>, f: Attention, p: Proj, n: usize, x: Val, i: int)
    ensures
        m.at(f.heads(p, n, x).term, i) == m.projected(p, m.at(x.term, i)),
        m.len(f.heads(p, n, x).term) == m.len(x.term),
        f.heads(p, n, x).dtype == x.dtype,
        f.heads(p, n, x).shape == d4(x.shape.d0, n, x.shape.d1, f.head_dim),
{
    let split = Op::Reshape(d4(x.shape.d0, x.shape.d1, n, f.head_dim));
    lemma_at_proj(m, p, x, i);
    lemma_laid_out(m, split, p.apply(x), i);
    lemma_laid_out(m, Op::Transpose(1, 2), un(split, p.apply(x)), i);
    reveal(un);
    reveal(bin);
}

/// Attention of a position: the mean, by the softmax of scaled scores, of the
/// values of every position held before the pass and of those of the pass up to its
/// own, and of no later one, projected. Queries and keys are rotated by the rows of
/// their positions, values are not.
pub proof fn law_attention_hears_up_to_its_own_position<V>(
    m: Meaning<V>,
    f: Attention,
    rotary: Rotary,
    x: Val,
    pos: usize,
    cache: CatCache,
    buffers: Seq<Buf>,
    bufs: Bufs,
    i: int,
    item: spec_fn(int) -> (V, V),
)
    requires
        m.masks(),
        0 <= i < x.shape.d1,
        m.len(x.term) == x.shape.d1,
        cache.len() + x.shape.d1 <= usize::MAX,
        cache.filled ==> (cache.bufs matches Some(p) && m.len(bufs[p.k.id as int])
            == p.k.shape.d2 && m.len(bufs[p.v.id as int]) == p.k.shape.d2 && p.v.shape.d2
            == p.k.shape.d2),
        ({
            let to = Op::ToDType(x.dtype);
            let held = cache.len() as int;
            let turned = |p: Proj, j: int|
                (m.tri)(
                    Op::Rope,
                    m.projected(p, m.at(x.term, j)),
                    (m.un)(to, (m.row)(rotary.cos, pos + j)),
                    (m.un)(to, (m.row)(rotary.sin, pos + j)),
                );
            forall|j: int|
                0 <= j <= held + i ==> #[trigger] item(j) == ({
                    let key = if j < held {
                        m.at(bufs[cache.bufs->0.k.id as int], j)
                    } else {
                        turned(f.k_proj, j - held)
                    };
                    let value = if j < held {
                        m.at(bufs[cache.bufs->0.v.id as int], j)
                    } else {
                        m.projected(f.v_proj, m.at(x.term, j - held))
                    };
                    let score = (m.score)(turned(f.q_proj, i), key);
                    ((m.un)(Op::MulScalar(Scalar::RecipSqrt(f.head_dim)), score), value)
                })
        }),
    ensures
        f.pass(x, rotary, pos, cache, buffers, bufs) matches Ok(o) ==> {
            &&& m.at(o.out.term, i) == m.projected(
                f.o_proj,
                (m.mean)(m.taken(item, 0, cache.len() + i + 1, m.nothing)),
            )
            &&& m.len(o.out.term) == m.len(x.term)
        },
{
    if let Ok(o) = f.pass(x, rotary, pos, cache, buffers, bufs) {
        let (seq, h) = (x.shape.d1, cache.len() as int);
        let (hq, hk) = (f.heads(f.q_proj, f.n_heads, x), f.heads(f.k_proj, f.n_kv_heads, x));
        let (q, k) = (rotary.at(hq, pos), rotary.at(hk, pos));
        let v = f.heads(f.v_proj, f.n_kv_heads, x);
        lemma_heads_at(m, f, f.q_proj, f.n_heads, x, i);
        law_rotation_follows_position(m, rotary, hq, pos, i);
        lemma_heads_at(m, f, f.k_proj, f.n_kv_heads, x, 0);
        lemma_heads_at(m, f, f.v_proj, f.n_kv_heads, x, 0);
        law_rotation_follows_position(m, rotary, hk, pos, 0);
        let (ka, va) = cache.views(bufs, k, v);
        let (kb, vb) = (cache.bufs->0.k, cache.bufs->0.v);
        assert(k.shape == hk.shape) by {
            reveal(tri);
        }
        lemma_view(m, cache, bufs, kb, k, 0);
        lemma_view(m, cache, bufs, vb, v, 0);
        let total = ka.shape.d2;
        assert(total == h + seq);
        let scale = Op::MulScalar(Scalar::RecipSqrt(f.head_dim));
        let product = bin(Op::MatMul, q, un(Op::Transpose(2, 3), ka));
        let raw = un(scale, product);
        let masked = if seq > 1 {
            bin(Op::BroadcastAdd, raw, un(Op::ToDType(raw.dtype), causal(seq, total)))
        } else {
            raw
        };
        let scores = un(Op::ToDType(DType::F32), masked);
        let d = Some(q.dtype);
        assert forall|j: int| 0 <= j < m.len(va.term) implies (if 0 <= j < h + i + 1 {
            (m.cell_at(scores.term, i, j), #[trigger] m.at(va.term, j)) == item(j)
        } else {
            blocked_score(m, m.cell_at(scores.term, i, j))
        }) by {
            lemma_view(m, cache, bufs, kb, k, j);
            lemma_view(m, cache, bufs, vb, v, j);
            if j >= h {
                lemma_heads_at(m, f, f.k_proj, f.n_kv_heads, x, j - h);
                lemma_heads_at(m, f, f.v_proj, f.n_kv_heads, x, j - h);
                law_rotation_follows_position(m, rotary, hk, pos, j - h);
            }
            lemma_cell_product(m, q, Op::Transpose(2, 3), ka, i, j);
            lemma_cell_un(m, scale, product, i, j);
            if seq > 1 {
                lemma_causal_score(m, raw, raw.dtype, seq, total, i, j);
            }
            lemma_cell_un(m, Op::ToDType(DType::F32), masked, i, j);
        }
        lemma_listens(m, d, scores, va, i, item, 0, h + i + 1);
        let mixed = f.attended(q, ka, va, seq);
        assert(mixed == attended(d, scores, va));
        let swap = Op::Transpose(1, 2);
        let flat = Op::Reshape(
            d3(x.shape.d0, x.shape.d1, sat_product(f.n_heads, f.head_dim)),
        );
        lemma_laid_out(m, swap, mixed, i);
        lemma_laid_out(m, flat, un(swap, mixed), i);
        lemma_at_proj(m, f.o_proj, un(flat, un(swap, mixed)), i);
        lemma_bin_extent(m, Op::MatMul, q, un(Op::Transpose(2, 3), ka));
        lemma_un_extent(m, scale, product);
        lemma_bin_extent(
            m,
            Op::BroadcastAdd,
            raw,
            un(Op::ToDType(raw.dtype), causal(seq, total)),
        );
        lemma_un_extent(m, Op::ToDType(DType::F32), masked);
    }
}

/// A norm treats positions one by one.
pub proof fn law_norm_of_each_position<V>(m: Meaning<V>, n: RmsNorm, x: Val, i: int)
    ensures
        m.at(n.apply(x).term, i) == (m.un)(
            Op::RmsNorm(n.weight, Scalar::F32(n.eps)),
            m.at(x.term, i),
        ),
        m.len(n.apply(x).term) == m.len(x.term),
        n.apply(x).shape == x.shape,
{
    reveal(un);
}

/// The first half of a layer adds to its input what attention gives on the normed
/// input, and hands on the norm of that sum.
pub proof fn law_layer_adds_attention<V>(
    m: Meaning<V>,
    l: DecoderLayer,
    rotary: Rotary,
    pos: usize,
    x: Val,
    cache: CatCache,
    buffers: Seq<Buf>,
    bufs: Bufs,
    i: int,
)
    ensures
        match (
            l.halfway(rotary, pos, x, cache, buffers, bufs),
            l.self_attn.pass(
                un(
                    Op::RmsNorm(
                        l.input_layernorm.weight,
                        Scalar::F32(l.input_layernorm.eps),
                    ),
                    x,
                ),
                rotary,
                pos,
                cache,
                buffers,
                bufs,
            ),
        ) {
            (Ok(h), Ok(a)) => {
                let n = l.post_attention_layernorm;
                let sum = (m.bin)(Op::Add, m.at(x.term, i), m.at(a.out.term, i));
                &&& m.at(h.x.term, i) == sum
                &&& m.at(h.normed.term, i) == (m.un)(
                    Op::RmsNorm(n.weight, Scalar::F32(n.eps)),
                    sum,
                )
                &&& h.scores matches Some(s) ==> (l.ffn matches FeedForward::Moe(f) && s
                    == f.scores(h.normed))
                &&& h.scores is Some <==> l.ffn is Moe
                &&& h.cache == a.cache && h.bufs == a.bufs && h.buffers == a.buffers
            },
            (Err(d), Err(e)) => d == e,
            _ => false,
        },
{
    reveal(DecoderLayer::halfway);
    let y = un(
        Op::RmsNorm(l.input_layernorm.weight, Scalar::F32(l.input_layernorm.eps)),
        x,
    );
    if let Ok(a) = l.self_attn.pass(y, rotary, pos, cache, buffers, bufs) {
        let s = bin(Op::Add, x, a.out);
        lemma_at_bin(m, Op::Add, x, a.out, i);
        law_norm_of_each_position(m, l.post_attention_layernorm, s, i);
    }
}

/// The second half of a layer adds to the sum what the feed-forward block gives on
/// its norm.
pub proof fn law_layer_adds_feed_forward<V>(
    m: Meaning<V>,
    l: DecoderLayer,
    x: Val,
    normed: Val,
    scores: Val,
    plan: Seq<Seq<usize>>,
    i: int,
)
    ensures
        m.at(l.finished(x, normed, Some(scores), plan).term, i) == (m.bin)(
            Op::Add,
            m.at(x.term, i),
            match l.ffn {
                FeedForward::Dense(f) => m.at(f.apply(normed).term, i),
                FeedForward::Moe(f) => m.at(f.out(normed, scores, plan).term, i),
            },
        ),
{
    let y = match l.ffn {
        FeedForward::Dense(f) => f.apply(normed),
        FeedForward::Moe(f) => f.out(normed, scores, plan),
    };
    lemma_at_bin(m, Op::Add, x, y, i);
}

/// A layer whose feed-forward block gives nothing passes on the sum of its input
/// and its attention; one whose attention gives nothing either passes its input on.
pub proof fn law_silent_branches_pass_the_input_on<V>(
    m: Meaning<V>,
    l: DecoderLayer,
    rotary: Rotary,
    pos: usize,
    x: Val,
    cache: CatCache,
    buffers: Seq<Buf>,
    bufs: Bufs,
    z: V,
    i: int,
)
    requires
        m.adds_nothing(z),
        l.ffn matches FeedForward::Dense(f) && (forall|v: V| #[trigger] m.projected(f.down_proj, v)
            == z),
    ensures
        l.halfway(rotary, pos, x, cache, buffers, bufs) matches Ok(h) ==> {
            let out = m.at(l.finished(h.x, h.normed, h.scores, Seq::empty()).term, i);
            &&& out == m.at(h.x.term, i)
            &&& l.self_attn.pass(
                l.input_layernorm.apply(x),
                rotary,
                pos,
                cache,
                buffers,
                bufs,
            ) matches Ok(a) && (m.at(a.out.term, i) == z ==> out == m.at(x.term, i))
        },
{
    law_layer_adds_attention(m, l, rotary, pos, x, cache, buffers, bufs, i);
    if let Ok(h) = l.halfway(rotary, pos, x, cache, buffers, bufs) {
        law_layer_adds_feed_forward(m, l, h.x, h.normed, h.x, Seq::empty(), i);
        law_gated_block_of_each_position(m, l.ffn->Dense_0, h.normed, i);
        assert((m.bin)(Op::Add, m.at(h.x.term, i), z) == m.at(h.x.term, i));
        assert((m.bin)(Op::Add, m.at(x.term, i), z) == m.at(x.term, i));
    }
}

/// The logits are the head on the norm of the last of `seq` positions.
pub proof fn law_logits_of_the_last_position<V>(
    m: Meaning<V>,
    t: TextModel,
    x: Val,
    seq: usize,
    i: int,
)
    requires
        seq > 0,
    ensures
        m.at(t.logits(x, seq).term, i) == m.projected(
            t.lm_head,
            (m.un)(
                Op::Select { dim: 1, index: (seq - 1) as usize },
                (m.un)(Op::RmsNorm(t.norm.weight, Scalar::F32(t.norm.eps)), m.at(x.term, i)),
            ),
        ),
{
    let y = t.norm.apply(x);
    let row = Op::Select { dim: 1, index: (seq - 1) as usize };
    law_norm_of_each_position(m, t.norm, x, i);
    lemma_at_un(m, row, y, i);
    lemma_at_proj(m, t.lm_head, un(row, y), i);
}

/// The cache after a pass of attention.
proof fn lemma_cache_grows(
    f: Attention,
    rotary: Rotary,
    pos: usize,
    x: Val,
    cache: CatCache,
    buffers: Seq<Buf>,
    bufs: Bufs,
)
    ensures
        f.pass(x, rotary, pos, cache, buffers, bufs) matches Ok(a) ==> a.cache.filled
            && a.cache.len() == (if cache.filled {
            sat_sum(cache.len(), x.shape.d1)
        } else {
            x.shape.d1
        }),
{
    let hk = f.heads(f.k_proj, f.n_kv_heads, x);
    assert(hk.shape == d4(x.shape.d0, f.n_kv_heads, x.shape.d1, f.head_dim)) by {
        reveal(un);
    }
    assert(rotary.at(hk, pos).shape == hk.shape) by {
        reveal(tri);
    }
    reveal(bin);
}

/// Extents and cache after a layer without experts.
proof fn lemma_layer_shapes(
    l: DecoderLayer,
    rotary: Rotary,
    pos: usize,
    x: Val,
    cache: CatCache,
    buffers: Seq<Buf>,
    bufs: Bufs,
)
    ensures
        l.halfway(rotary, pos, x, cache, buffers, bufs) matches Ok(h) ==> {
            &&& l.finished(h.x, h.normed, h.scores, Seq::empty()).shape == x.shape
            &&& h.cache.filled
            &&& h.cache.len() == (if cache.filled {
                sat_sum(cache.len(), x.shape.d1)
            } else {
                x.shape.d1
            })
        },
{
    reveal(DecoderLayer::halfway);
    let y = l.input_layernorm.apply(x);
    assert(y.shape == x.shape) by {
        reveal(un);
    }
    lemma_cache_grows(l.self_attn, rotary, pos, y, cache, buffers, bufs);
    reveal(bin);
}

/// A pass that comes through has been taken in by every layer from `i` on: each
/// cache has grown by the positions of the pass, and the others are as they were.
pub proof fn law_every_layer_takes_the_pass_in(t: TextModel, pos: usize, i: int, f: Flow, j: int)
    requires
        0 <= i,
        f.caches.len() == t.layers.len(),
        0 <= j < t.layers.len(),
        f.x.shape == d3(f.x.shape.d0, f.x.shape.d1, f.x.shape.d2),
        i <= j ==> f.caches[j].len() + f.x.shape.d1 <= usize::MAX,
    ensures
        t.run(pos, i, f) matches Ran::Through(g) ==> {
            &&& g.x.shape == f.x.shape
            &&& g.caches.len() == f.caches.len()
            &&& j < i ==> g.caches[j] == f.caches[j]
            &&& i <= j ==> g.caches[j].filled && g.caches[j].len() == f.caches[j].len()
                + f.x.shape.d1
        },
    decreases t.layers.len() - i,
{
    if i < t.layers.len() {
        let l = t.layers[i];
        if let Ok(h) = l.halfway(t.rotary, pos, f.x, f.caches[i], f.buffers, f.bufs) {
            if !l.host_routed() {
                let x = l.finished(h.x, h.normed, h.scores, Seq::empty());
                lemma_layer_shapes(l, t.rotary, pos, f.x, f.caches[i], f.buffers, f.bufs);
                let caches = f.caches.update(i, h.cache);
                law_every_layer_takes_the_pass_in(
                    t,
                    pos,
                    i + 1,
                    Flow { x, bufs: h.bufs, buffers: h.buffers, caches },
                    j,
                );
            }
        }
    }
}

/// A model with one layer more does what the model does, and then what the layer does:
/// where that needs no host, it adds its two branches to what came through.
pub proof fn law_last_layer_comes_last(t: TextModel, u: TextModel, pos: usize, i: int, f: Flow)
    requires
        u.layers.len() == t.layers.len() + 1,
        u.rotary == t.rotary,
        forall|j: int| 0 <= j < t.layers.len() ==> u.layers[j] == #[trigger] t.layers[j],
        0 <= i <= t.layers.len(),
    ensures
        u.run(pos, i, f) == (match t.run(pos, i, f) {
            Ran::Through(g) => ({
                let k = t.layers.len() as int;
                let l = u.layers[k];
                match l.halfway(u.rotary, pos, g.x, g.caches[k], g.buffers, g.bufs) {
                    Err(error) => Ran::Failed(
                        Failure { error, bufs: g.bufs, buffers: g.buffers, caches: g.caches },
                    ),
                    Ok(h) => ({
                        let caches = g.caches.update(k, h.cache);
                        if l.host_routed() {
                            Ran::Paused(k, h, caches)
                        } else {
                            Ran::Through(
                                Flow {
                                    x: l.finished(h.x, h.normed, h.scores, Seq::empty()),
                                    bufs: h.bufs,
                                    buffers: h.buffers,
                                    caches,
                                },
                            )
                        }
                    }),
                }
            }),
            other => other,
        }),
    decreases t.layers.len() - i,
{
    if i < t.layers.len() {
        let l = t.layers[i];
        assert(u.layers[i] == l);
        if let Ok(h) = l.halfway(t.rotary, pos, f.x, f.caches[i], f.buffers, f.bufs) {
            if !l.host_routed() {
                let x = l.finished(h.x, h.normed, h.scores, Seq::empty());
                let caches = f.caches.update(i, h.cache);
                law_last_layer_comes_last(
                    t,
                    u,
                    pos,
                    i + 1,
                    Flow { x, bufs: h.bufs, buffers: h.buffers, caches },
                );
            }
        }
    } else {
        reveal_with_fuel(TextModel::run, 2);
    }
}

} // verus!
