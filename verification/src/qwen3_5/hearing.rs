//! What full attention does to the contents of a position.
use vstd::prelude::*;

use crate::contents::{lemma_at_bin, lemma_at_proj, lemma_at_un, lemma_causal_score, lemma_listens};
use crate::dtype::{DType, Device};
use crate::error::Error;
use crate::masks::causal;
use crate::positions::{
    attended, blocked_score, counted_from, lemma_cell_bin, lemma_cell_product, lemma_cell_un,
    lemma_laid_out, lemma_mask_row, lemma_un_extent, Meaning,
};
use crate::qwen3_5::attention::{repeated, FullAttention, FullKv};
use crate::qwen3_5::contents::{
    law_norm_of_each_position, law_rotation_follows_position, normed_row, turned_row,
};
use crate::qwen3_5::norm::Rotary;
use crate::rows::cell_blocked;
use crate::shape::{d3, d4, d5, sat_product};
use crate::static_decode::kv_write_effect;
use crate::tape::{bin, held, un, Buf, Bufs, Op, Scalar, Val};

verus! {

/// The query (`part` 0) or its gating half (`part` 1) of a position, as projected: one half
/// of a joint projection where there is a gate.
pub open spec fn query_half<V>(m: Meaning<V>, f: FullAttention, v: V, part: usize) -> V {
    let p = m.projected(f.q_proj, v);
    if f.gated {
        (m.un)(Op::Select { dim: 3, index: part }, p)
    } else {
        p
    }
}

proof fn lemma_query_half<V>(
    m: Meaning<V>,
    f: FullAttention,
    x: Val,
    b: usize,
    seq: usize,
    part: usize,
    i: int,
)
    ensures
        m.at(f.query_part(x, b, seq, part).term, i) == query_half(m, f, m.at(x.term, i), part),
        m.len(f.query_part(x, b, seq, part).term) == m.len(x.term),
        f.query_part(x, b, seq, part).dtype == f.q_proj.apply(x).dtype,
        f.query_part(x, b, seq, part).shape == d4(b, seq, f.n_heads, f.head_dim),
{
    let hd = f.head_dim;
    let p = f.q_proj.apply(x);
    lemma_at_proj(m, f.q_proj, x, i);
    if f.gated {
        let split = Op::Reshape(d5(b, seq, f.n_heads, 2, hd));
        lemma_laid_out(m, split, p, i);
        lemma_at_un(m, Op::Select { dim: 3, index: part }, un(split, p), i);
    } else {
        lemma_laid_out(m, Op::Reshape(d4(b, seq, f.n_heads, hd)), p, i);
    }
    reveal(un);
}

/// Queries, keys and values come from their own position: queries and keys are
/// normed, values are not.
pub proof fn law_heads_of_each_position<V>(
    m: Meaning<V>,
    f: FullAttention,
    x: Val,
    b: usize,
    seq: usize,
    i: int,
)
    ensures
        ({
            let v = m.at(x.term, i);
            &&& m.at(f.query(x, b, seq).term, i) == normed_row(
                m,
                f.q_norm,
                f.q_proj.apply(x).dtype,
                3,
                query_half(m, f, v, 0),
            )
            &&& m.at(f.key(x, b, seq).term, i) == normed_row(
                m,
                f.k_norm,
                f.k_proj.apply(x).dtype,
                3,
                m.projected(f.k_proj, v),
            )
            &&& m.at(f.value(x, b, seq).term, i) == m.projected(f.v_proj, v)
        }),
        f.query(x, b, seq).dtype == f.q_proj.apply(x).dtype,
        f.key(x, b, seq).dtype == f.k_proj.apply(x).dtype,
        m.len(f.value(x, b, seq).term) == m.len(x.term),
{
    let swap = Op::Transpose(1, 2);
    let q = f.query_part(x, b, seq, 0);
    lemma_query_half(m, f, x, b, seq, 0, i);
    law_norm_of_each_position(m, f.q_norm, q, i);
    lemma_laid_out(m, swap, f.q_norm.apply(q), i);
    let split = Op::Reshape(d4(b, seq, f.n_kv_heads, f.head_dim));
    let (k, v) = (f.k_proj.apply(x), f.v_proj.apply(x));
    lemma_at_proj(m, f.k_proj, x, i);
    lemma_at_proj(m, f.v_proj, x, i);
    lemma_laid_out(m, split, k, i);
    lemma_laid_out(m, split, v, i);
    assert(un(split, k).shape == d4(b, seq, f.n_kv_heads, f.head_dim) && un(split, k).dtype
        == k.dtype) by {
        reveal(un);
    }
    law_norm_of_each_position(m, f.k_norm, un(split, k), i);
    lemma_laid_out(m, swap, f.k_norm.apply(un(split, k)), i);
    lemma_laid_out(m, swap, un(split, v), i);
    reveal(un);
}

/// The output of a position: what attention gave, times the logistic function of the
/// position's gate where there is one, projected.
pub proof fn law_output_is_gated<V>(
    m: Meaning<V>,
    f: FullAttention,
    out: Val,
    x: Val,
    b: usize,
    seq: usize,
    i: int,
)
    ensures
        ({
            let gate = (m.un)(Op::Sigmoid, query_half(m, f, m.at(x.term, i), 1));
            m.at(f.output(out, x, b, seq).term, i) == m.projected(
                f.o_proj,
                if f.gated {
                    (m.bin)(Op::Mul, m.at(out.term, i), gate)
                } else {
                    m.at(out.term, i)
                },
            )
        }),
{
    let swap = Op::Transpose(1, 2);
    let h = f.query_part(x, b, seq, 1);
    let gate = un(swap, h);
    lemma_query_half(m, f, x, b, seq, 1, i);
    lemma_laid_out(m, swap, h, i);
    lemma_at_un(m, Op::Sigmoid, gate, i);
    lemma_at_bin(m, Op::Mul, out, un(Op::Sigmoid, gate), i);
    let y = if f.gated {
        bin(Op::Mul, out, un(Op::Sigmoid, gate))
    } else {
        out
    };
    let flat = Op::Reshape(d3(b, seq, sat_product(f.n_heads, f.head_dim)));
    lemma_laid_out(m, swap, y, i);
    lemma_laid_out(m, flat, un(swap, y), i);
    lemma_at_proj(m, f.o_proj, un(flat, un(swap, y)), i);
}

/// A key or value once per query head of its group.
pub open spec fn copied<V>(m: Meaning<V>, x: Val, rep: usize, v: V) -> V {
    if rep == 1 {
        v
    } else {
        (m.un)(
            Op::Expand(d5(x.shape.d0, x.shape.d1, rep, 0, x.shape.d3)),
            (m.un)(Op::Unsqueeze(2), v),
        )
    }
}

proof fn lemma_copied<V>(m: Meaning<V>, x: Val, rep: usize, j: int)
    ensures
        m.at(repeated(x, rep).term, j) == copied(m, x, rep, m.at(x.term, j)),
        m.len(repeated(x, rep).term) == m.len(x.term),
        repeated(x, rep).shape.d2 == x.shape.d2,
{
    if rep != 1 {
        let (b, h, s, d) = (x.shape.d0, x.shape.d1, x.shape.d2, x.shape.d3);
        let up = un(Op::Unsqueeze(2), x);
        let wide = un(Op::Expand(d5(b, h, rep, s, d)), up);
        lemma_at_un(m, Op::Unsqueeze(2), x, j);
        assert(m.at(wide.term, j) == (m.un)(Op::Expand(d5(b, h, rep, 0, d)), m.at(up.term, j))
            && m.len(wide.term) == m.len(up.term)) by {
            reveal(un);
        }
        lemma_laid_out(m, Op::Reshape(d4(b, sat_product(h, rep), s, d)), wide, j);
        reveal(un);
    }
}

/// Attention gives query `i` of `seq` the mean of the values up to its own position, by
/// the softmax of the scores of their keys over the root of the width of a head.
pub proof fn law_query_hears_up_to_its_own_position<V>(
    m: Meaning<V>,
    f: FullAttention,
    q: Val,
    k: Val,
    v: Val,
    seq: usize,
    i: int,
    item: spec_fn(int) -> (V, V),
)
    requires
        m.masks(),
        0 <= i < seq <= k.shape.d2,
        m.len(v.term) == k.shape.d2,
        ({
            let rep = f.n_heads / f.n_kv_heads;
            forall|j: int|
                #[trigger] item(j) == ({
                    let score = (m.score)(m.at(q.term, i), copied(m, k, rep, m.at(k.term, j)));
                    (
                        (m.un)(Op::MulScalar(Scalar::RecipSqrt(f.head_dim)), score),
                        copied(m, v, rep, m.at(v.term, j)),
                    )
                })
        }),
    ensures
        m.at(f.attended(q, k, v, seq).term, i) == (m.mean)(
            m.taken(item, 0, k.shape.d2 - seq + i + 1, m.nothing),
        ),
{
    let rep = f.n_heads / f.n_kv_heads;
    let (kx, vx) = (repeated(k, rep), repeated(v, rep));
    let scale = Op::MulScalar(Scalar::RecipSqrt(f.head_dim));
    let turned = Op::Transpose(2, 3);
    let product = bin(Op::MatMul, q, un(turned, kx));
    let raw = un(scale, product);
    let total = k.shape.d2;
    lemma_copied(m, k, rep, 0);
    lemma_copied(m, v, rep, 0);
    let masked = if seq > 1 {
        bin(Op::BroadcastAdd, raw, un(Op::ToDType(raw.dtype), causal(seq, total)))
    } else {
        raw
    };
    let to = Op::ToDType(DType::F32);
    let scores = un(to, masked);
    let hi = total - seq + i + 1;
    assert forall|j: int| 0 <= j < m.len(vx.term) implies (if 0 <= j < hi {
        (m.cell_at(scores.term, i, j), #[trigger] m.at(vx.term, j)) == item(j)
    } else {
        blocked_score(m, m.cell_at(scores.term, i, j))
    }) by {
        lemma_copied(m, k, rep, j);
        lemma_copied(m, v, rep, j);
        lemma_cell_product(m, q, turned, kx, i, j);
        lemma_cell_un(m, scale, product, i, j);
        if seq > 1 {
            lemma_causal_score(m, raw, raw.dtype, seq, total, i, j);
        }
        lemma_cell_un(m, to, masked, i, j);
        assert(item(j) == item(j));
    }
    lemma_listens(m, Some(q.dtype), scores, vx, i, item, 0, hi);
    assert(f.attended(q, k, v, seq) == attended(Some(q.dtype), scores, vx));
}

/// A step gives its query the same over the rows of the static buffers up to `n`.
pub proof fn law_step_hears_up_to_its_own_position<V>(
    m: Meaning<V>,
    f: FullAttention,
    q: Val,
    k: Val,
    v: Val,
    mask: Val,
    n: int,
    item: spec_fn(int) -> (V, V),
)
    requires
        m.masks(),
        0 <= n < m.len(v.term),
        forall|j: int| #[trigger] cell_blocked(mask.term, j) == Some(n < j),
        forall|j: int|
            #[trigger] item(j) == ({
                let score = (m.score)(m.at(q.term, 0), m.at(k.term, j));
                (
                    (m.un)(Op::MulScalar(Scalar::RecipSqrt(f.head_dim)), score),
                    m.at(v.term, j),
                )
            }),
    ensures
        m.at(f.step_attended(q, k, v, mask).term, 0) == (m.mean)(
            m.taken(item, 0, n + 1, m.nothing),
        ),
{
    let rep = f.n_heads / f.n_kv_heads;
    let hd = f.head_dim;
    let grouped = Op::Reshape(d4(1, f.n_kv_heads, rep, hd));
    let q4 = un(grouped, q);
    let up = Op::Unsqueeze(0);
    let (kb, vb) = (un(up, k), un(up, v));
    let scale = Op::MulScalar(Scalar::RecipSqrt(hd));
    let turned = Op::Transpose(2, 3);
    let product = bin(Op::MatMul, q4, un(turned, kb));
    let to = Op::ToDType(DType::F32);
    let raw = un(to, un(scale, product));
    let flat = Op::Reshape(d4(1, 1, 1, k.shape.d1));
    let scores = bin(Op::BroadcastAdd, raw, un(flat, mask));
    lemma_laid_out(m, grouped, q, 0);
    lemma_un_extent(m, up, v);
    assert forall|j: int| 0 <= j < m.len(vb.term) implies (if 0 <= j < n + 1 {
        (m.cell_at(scores.term, 0, j), #[trigger] m.at(vb.term, j)) == item(j)
    } else {
        blocked_score(m, m.cell_at(scores.term, 0, j))
    }) by {
        assert(cell_blocked(mask.term, j) == Some(n < j));
        lemma_laid_out(m, up, k, j);
        lemma_laid_out(m, up, v, j);
        lemma_cell_product(m, q4, turned, kb, 0, j);
        lemma_cell_un(m, scale, product, 0, j);
        lemma_cell_un(m, to, un(scale, product), 0, j);
        lemma_cell_un(m, flat, mask, 0, j);
        lemma_mask_row(m, mask, 0, j);
        lemma_cell_bin(m, Op::BroadcastAdd, raw, un(flat, mask), 0, j);
        let c = item(j).0;
        if j <= n {
            assert((m.bin)(Op::BroadcastAdd, c, (m.cell)(false)) == c);
        } else {
            assert(m.cell_at(scores.term, 0, j) == (m.bin)(Op::BroadcastAdd, c, (m.cell)(true)));
        }
    }
    lemma_listens(m, Some(q.dtype), scores, vb, 0, item, 0, n + 1);
    let y = attended(Some(q.dtype), scores, vb);
    lemma_laid_out(m, Op::Reshape(d4(1, f.n_heads, 1, hd)), y, 0);
}

/// `q`, `k` and `v` hold the heads of `x`, the first two turned by the rows of their
/// positions from `pos` on.
pub open spec fn placed_heads<V>(
    m: Meaning<V>,
    f: FullAttention,
    r: Rotary,
    x: Val,
    pos: int,
    q: Val,
    k: Val,
    v: Val,
) -> bool {
    let hd = f.head_dim;
    let (dq, dk) = (f.q_proj.apply(x).dtype, f.k_proj.apply(x).dtype);
    forall|i: int|
        {
            let (c, s) = ((m.row)(r.cos, pos + i), (m.row)(r.sin, pos + i));
            let w = #[trigger] m.at(x.term, i);
            let query = normed_row(m, f.q_norm, dq, 3, query_half(m, f, w, 0));
            let key = normed_row(m, f.k_norm, dk, 3, m.projected(f.k_proj, w));
            &&& m.at(q.term, i) == turned_row(m, r, dq, hd, query, c, s)
            &&& m.at(k.term, i) == turned_row(m, r, dk, hd, key, c, s)
            &&& m.at(v.term, i) == m.projected(f.v_proj, w)
        }
}

proof fn lemma_placed<V>(
    m: Meaning<V>,
    f: FullAttention,
    r: Rotary,
    x: Val,
    b: usize,
    seq: usize,
    pos: usize,
    idx: Val,
    row: Op,
)
    requires
        row is Reshape,
    ensures
        ({
            let (q, k, v) = (f.query(x, b, seq), f.key(x, b, seq), f.value(x, b, seq));
            let hd = f.head_dim;
            &&& placed_heads(
                m,
                f,
                r,
                x,
                pos as int,
                r.at(q, pos, seq, hd),
                r.at(k, pos, seq, hd),
                v,
            )
            &&& counted_from(idx.term) matches Some(n) ==> placed_heads(
                m,
                f,
                r,
                x,
                n,
                r.at_rows(q, idx, hd),
                un(row, r.at_rows(k, idx, hd)),
                un(row, v),
            )
        }),
{
    let (q, k, v) = (f.query(x, b, seq), f.key(x, b, seq), f.value(x, b, seq));
    let hd = f.head_dim;
    let (dq, dk) = (f.q_proj.apply(x).dtype, f.k_proj.apply(x).dtype);
    assert forall|i: int|
        {
            let w = #[trigger] m.at(x.term, i);
            let query = normed_row(m, f.q_norm, dq, 3, query_half(m, f, w, 0));
            let key = normed_row(m, f.k_norm, dk, 3, m.projected(f.k_proj, w));
            let (c, s) = ((m.row)(r.cos, pos + i), (m.row)(r.sin, pos + i));
            &&& m.at(r.at(q, pos, seq, hd).term, i) == turned_row(m, r, dq, hd, query, c, s)
            &&& m.at(r.at(k, pos, seq, hd).term, i) == turned_row(m, r, dk, hd, key, c, s)
            &&& m.at(v.term, i) == m.projected(f.v_proj, w)
            &&& m.at(un(row, v).term, i) == m.projected(f.v_proj, w)
            &&& counted_from(idx.term) matches Some(n) ==> ({
                let (c, s) = ((m.row)(r.cos, n + i), (m.row)(r.sin, n + i));
                &&& m.at(r.at_rows(q, idx, hd).term, i) == turned_row(m, r, dq, hd, query, c, s)
                &&& m.at(un(row, r.at_rows(k, idx, hd)).term, i) == turned_row(
                    m,
                    r,
                    dk,
                    hd,
                    key,
                    c,
                    s,
                )
            })
        } by {
        law_heads_of_each_position(m, f, x, b, seq, i);
        law_rotation_follows_position(m, r, q, pos, seq, idx, hd, i);
        law_rotation_follows_position(m, r, k, pos, seq, idx, hd, i);
        lemma_laid_out(m, row, r.at_rows(k, idx, hd), i);
        lemma_laid_out(m, row, v, i);
    }
}

/// A pass places its heads from `pos` on, appends keys and values to the cache, attends
/// to everything held, and gates what it hears.
pub proof fn law_pass_attends_to_the_cache<V>(
    m: Meaning<V>,
    f: FullAttention,
    x: Val,
    rotary: Rotary,
    pos: usize,
    kv: FullKv,
    kept: (Seq<Buf>, Bufs),
)
    requires
        f.pass(x, rotary, pos, kv, kept.0, kept.1) is Ok,
    ensures
        exists|q: Val, k: Val, v: Val|
            #[trigger] placed_heads(m, f, rotary, x, pos as int, q, k, v) && ({
                let o = f.pass(x, rotary, pos, kv, kept.0, kept.1)->Ok_0;
                let (b, seq) = (x.shape.d0, x.shape.d1);
                let (ka, va) = kv.cache.views(kept.1, k, v);
                &&& o.out == f.output(f.attended(q, ka, va, seq), x, b, seq)
                &&& o.bufs == kv.cache.bufs_after(kept.0, kept.1, k, v)
                &&& o.buffers == kv.cache.buffers_after(kept.0, kept.1, k, v)
                &&& o.kv.statics == kv.statics
                &&& o.kv.cache.filled
                &&& o.kv.cache.bufs == Some(kv.cache.pair(kept.0, kept.1, k, v))
            }),
{
    let (b, seq) = (x.shape.d0, x.shape.d1);
    let q = rotary.at(f.query(x, b, seq), pos, seq, f.head_dim);
    let k = rotary.at(f.key(x, b, seq), pos, seq, f.head_dim);
    lemma_placed(m, f, rotary, x, b, seq, pos, x, Op::Reshape(x.shape));
    assert(placed_heads(m, f, rotary, x, pos as int, q, k, f.value(x, b, seq)));
}

/// A step places the heads of its token at the position that a buffer holds, writes its
/// key and value to that row, attends to the buffers, and gates what it hears.
pub proof fn law_step_attends_to_the_buffers<V>(
    m: Meaning<V>,
    f: FullAttention,
    device: Device,
    x: Val,
    rotary: Rotary,
    pos: Buf,
    mask: Buf,
    kv: FullKv,
    kept: (Seq<Buf>, Bufs),
    n: int,
)
    requires
        f.step_pass(device, x, rotary, pos, mask, kv, kept.0, kept.1) is Ok,
        counted_from(kept.1[pos.id as int]) == Some(n),
    ensures
        exists|q: Val, k: Val, v: Val|
            #[trigger] placed_heads(m, f, rotary, x, n, q, k, v) && ({
                let o = f.step_pass(device, x, rotary, pos, mask, kv, kept.0, kept.1)->Ok_0;
                &&& kv.statics matches Some(p)
                &&& kv_write_effect(device, kept.1, p.k, p.v, k, v, pos) == Ok::<Bufs, Error>(
                    o.bufs,
                )
                &&& o.out == f.output(
                    f.step_attended(
                        q,
                        held(o.bufs, p.k),
                        held(o.bufs, p.v),
                        held(o.bufs, mask),
                    ),
                    x,
                    1,
                    1,
                )
                &&& o.buffers == kept.0 && o.kv == kv
            }),
{
    let at = held(kept.1, pos);
    let hd = f.head_dim;
    let row = Op::Reshape(d3(f.n_kv_heads, 1, hd));
    let q = rotary.at_rows(f.query(x, 1, 1), at, hd);
    let k = un(row, rotary.at_rows(f.key(x, 1, 1), at, hd));
    lemma_placed(m, f, rotary, x, 1, 1, 0, at, row);
    assert(placed_heads(m, f, rotary, x, n, q, k, un(row, f.value(x, 1, 1))));
}

} // verus!
