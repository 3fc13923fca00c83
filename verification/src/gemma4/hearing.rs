//! What attention does to the contents of a position.
use vstd::prelude::*;

use crate::contents::{lemma_at_proj, lemma_at_tri, lemma_at_un, lemma_listens};
use crate::dtype::{DType, Device};
use crate::error::Error;
use crate::gemma4::attention::Attention;
use crate::gemma4::contents::{
    law_norm_of_each_position, law_plain_norm_of_each_position, law_rotation_follows_position,
    normed_row,
};
use crate::gemma4::context::{LayerKv, Shared, StaticCtx};
use crate::masks::decoder_mask;
use crate::positions::{
    attended, blocked_score, counted_from, lemma_cell_bin, lemma_cell_product, lemma_cell_un,
    lemma_laid_out, lemma_un_extent, Meaning,
};
use crate::shape::{d2, d3, d4, sat_product, sat_sum};
use crate::static_decode::{kv_write_effect, rows_at_effect, rows_effect};
use crate::tape::{bin, held, tri, un, Buf, Bufs, Op, Scalar, Val};

verus! {

/// Heads leave every position as it is.
proof fn lemma_heads<V>(m: Meaning<V>, a: Attention, x: Val, n: usize, b: usize, len: usize, i: int)
    ensures
        m.at(a.heads(x, n, b, len).term, i) == m.at(x.term, i),
        m.len(a.heads(x, n, b, len).term) == m.len(x.term),
        a.heads(x, n, b, len).shape == d4(b, n, len, a.head_dim),
        a.heads(x, n, b, len).dtype == x.dtype,
{
    let split = Op::Reshape(d4(b, len, n, a.head_dim));
    lemma_laid_out(m, split, x, i);
    lemma_laid_out(m, Op::Transpose(1, 2), un(split, x), i);
    reveal(un);
}

/// The query of a position: its projection, normed with weights.
pub open spec fn query_row<V>(m: Meaning<V>, a: Attention, x: Val, b: usize, len: usize, v: V) -> V {
    normed_row(
        m,
        a.q_norm,
        a.q_proj.apply(x).dtype,
        d4(b, a.num_heads, len, a.head_dim),
        m.projected(a.q_proj, v),
    )
}

/// The key of a position: its projection, normed with weights.
pub open spec fn key_row<V>(m: Meaning<V>, a: Attention, x: Val, b: usize, len: usize, v: V) -> V {
    normed_row(
        m,
        a.k_norm->0,
        a.k_proj->0.apply(x).dtype,
        d4(b, a.num_kv_heads, len, a.head_dim),
        m.projected(a.k_proj->0, v),
    )
}

/// The value of a position: its projection, or that of its key before the norm where
/// there is none for values, normed without weights.
pub open spec fn value_row<V>(m: Meaning<V>, a: Attention, x: Val, v: V) -> V {
    let p = match a.v_proj {
        Some(p) => p,
        None => a.k_proj->0,
    };
    let w = (m.un)(Op::ToDType(DType::F32), m.projected(p, v));
    let mean = (m.un)(Op::MeanKeep(3), (m.un)(Op::Sqr, w));
    let root = (m.un)(Op::Sqrt, (m.un)(Op::AddScalar(Scalar::F64(a.rms_norm_eps)), mean));
    (m.un)(Op::ToDType(p.apply(x).dtype), (m.bin)(Op::BroadcastDiv, w, root))
}

/// Queries, keys and values come from their own position.
pub proof fn law_heads_of_each_position<V>(
    m: Meaning<V>,
    a: Attention,
    x: Val,
    b: usize,
    len: usize,
    i: int,
)
    ensures
        m.at(a.query(x, b, len).term, i) == query_row(m, a, x, b, len, m.at(x.term, i)),
        m.at(a.key(x, b, len).term, i) == key_row(m, a, x, b, len, m.at(x.term, i)),
        m.at(a.value(x, b, len).term, i) == value_row(m, a, x, m.at(x.term, i)),
        m.len(a.query(x, b, len).term) == m.len(x.term),
        m.len(a.value(x, b, len).term) == m.len(x.term),
{
    let q = a.q_proj.apply(x);
    lemma_at_proj(m, a.q_proj, x, i);
    lemma_heads(m, a, q, a.num_heads, b, len, i);
    law_norm_of_each_position(m, a.q_norm, a.heads(q, a.num_heads, b, len), i);
    let k = a.k_proj->0.apply(x);
    lemma_at_proj(m, a.k_proj->0, x, i);
    lemma_heads(m, a, k, a.num_kv_heads, b, len, i);
    law_norm_of_each_position(m, a.k_norm->0, a.heads(k, a.num_kv_heads, b, len), i);
    let p = match a.v_proj {
        Some(p) => p,
        None => a.k_proj->0,
    };
    let v = p.apply(x);
    lemma_at_proj(m, p, x, i);
    lemma_heads(m, a, v, a.num_kv_heads, b, len, i);
    law_plain_norm_of_each_position(m, a.heads(v, a.num_kv_heads, b, len), a.rms_norm_eps, i);
}

/// A mean behind a mask that shows the keys of a window.
proof fn lemma_window_heard<V>(
    m: Meaning<V>,
    to: Option<DType>,
    raw: Val,
    mask: Option<Val>,
    v: Val,
    i: int,
    item: spec_fn(int) -> (V, V),
    lo: int,
    hi: int,
)
    requires
        m.masks(),
        0 <= lo <= hi <= m.len(v.term),
        forall|j: int|
            0 <= j < m.len(v.term) ==> (m.cell_at(raw.term, i, j), #[trigger] m.at(v.term, j))
                == item(j),
        match mask {
            Some(c) => forall|j: int|
                0 <= j < m.len(v.term) ==> #[trigger] m.cell_at(c.term, i, j) == (m.cell)(
                    !(lo <= j < hi),
                ),
            None => lo == 0 && hi == m.len(v.term),
        },
    ensures
        ({
            let scores = match mask {
                Some(c) => bin(Op::BroadcastAdd, raw, c),
                None => raw,
            };
            m.at(attended(to, scores, v).term, i) == (m.mean)(
                m.taken(item, lo, hi - lo, m.nothing),
            )
        }),
{
    let scores = match mask {
        Some(c) => bin(Op::BroadcastAdd, raw, c),
        None => raw,
    };
    assert forall|j: int| 0 <= j < m.len(v.term) implies (if lo <= j < hi {
        (m.cell_at(scores.term, i, j), #[trigger] m.at(v.term, j)) == item(j)
    } else {
        blocked_score(m, m.cell_at(scores.term, i, j))
    }) by {
        let s = m.cell_at(raw.term, i, j);
        assert((s, m.at(v.term, j)) == item(j));
        if let Some(c) = mask {
            lemma_cell_bin(m, Op::BroadcastAdd, raw, c, i, j);
            assert(m.cell_at(c.term, i, j) == (m.cell)(!(lo <= j < hi)));
            if lo <= j < hi {
                assert((m.bin)(Op::BroadcastAdd, s, (m.cell)(false)) == s);
            } else {
                assert(m.cell_at(scores.term, i, j) == (m.bin)(
                    Op::BroadcastAdd,
                    s,
                    (m.cell)(true),
                ));
            }
        }
    }
    lemma_listens(m, to, scores, v, i, item, lo, hi);
}

/// Joining heads and projecting.
proof fn lemma_output<V>(m: Meaning<V>, a: Attention, y: Val, b: usize, len: usize, i: int)
    ensures
        m.at(a.output(y, b, len).term, i) == m.projected(a.o_proj, m.at(y.term, i)),
{
    let swap = Op::Transpose(1, 2);
    let flat = Op::Reshape(d3(b, len, sat_product(a.num_heads, a.head_dim)));
    lemma_laid_out(m, swap, y, i);
    lemma_laid_out(m, flat, un(swap, y), i);
    lemma_at_proj(m, a.o_proj, un(flat, un(swap, y)), i);
}

/// Attention gives a query the mean of the values that its mask shows, by the softmax
/// of the plain scores of their keys, projected. With the fused kernel, it is the
/// kernel's, causal exactly where there is a mask.
pub proof fn law_query_hears_its_window<V>(
    m: Meaning<V>,
    a: Attention,
    q: Val,
    k: Val,
    v: Val,
    mask: Option<Val>,
    b: usize,
    len: usize,
    i: int,
    item: spec_fn(int) -> (V, V),
    lo: int,
    hi: int,
)
    requires
        m.masks(),
        0 <= lo <= hi <= m.len(v.term),
        ({
            let copies = Op::RepeatKv(a.num_kv_groups);
            forall|j: int|
                #[trigger] item(j) == (
                    (m.score)(m.at(q.term, i), (m.un)(copies, m.at(k.term, j))),
                    (m.un)(copies, m.at(v.term, j)),
                )
        }),
        match mask {
            Some(c) => forall|j: int|
                0 <= j < m.len(v.term) ==> #[trigger] m.cell_at(c.term, i, j) == (m.cell)(
                    !(lo <= j < hi),
                ),
            None => lo == 0 && hi == m.len(v.term),
        },
    ensures
        m.at(a.mixed(q, k, v, mask, b, len).term, i) == m.projected(
            a.o_proj,
            if a.use_flash_attn {
                (m.tri)(
                    Op::FlashAttn { causal: mask is Some },
                    m.at(q.term, i),
                    (m.un)(Op::RepeatKv(a.num_kv_groups), m.at(k.term, i)),
                    (m.un)(Op::RepeatKv(a.num_kv_groups), m.at(v.term, i)),
                )
            } else {
                (m.mean)(m.taken(item, lo, hi - lo, m.nothing))
            },
        ),
{
    let copies = Op::RepeatKv(a.num_kv_groups);
    let (kx, vx) = (un(copies, k), un(copies, v));
    let swap = Op::Transpose(1, 2);
    lemma_at_un(m, copies, k, i);
    lemma_at_un(m, copies, v, i);
    if a.use_flash_attn {
        let op = Op::FlashAttn { causal: mask is Some };
        let (q1, k1, v1) = (un(swap, q), un(swap, kx), un(swap, vx));
        lemma_laid_out(m, swap, q, i);
        lemma_laid_out(m, swap, kx, i);
        lemma_laid_out(m, swap, vx, i);
        lemma_at_tri(m, op, q1, k1, v1, i);
        lemma_laid_out(m, swap, tri(op, q1, k1, v1), i);
        lemma_output(m, a, un(swap, tri(op, q1, k1, v1)), b, len, i);
    } else {
        let turned = Op::Transpose(2, 3);
        let raw = bin(Op::MatMul, q, un(turned, kx));
        lemma_un_extent(m, copies, v);
        assert forall|j: int| 0 <= j < m.len(vx.term) implies (
            m.cell_at(raw.term, i, j),
            #[trigger] m.at(vx.term, j),
        ) == item(j) by {
            lemma_at_un(m, copies, k, j);
            lemma_at_un(m, copies, v, j);
            lemma_cell_product(m, q, turned, kx, i, j);
        }
        lemma_window_heard(m, None, raw, mask, vx, i, item, lo, hi);
        let scores = match mask {
            Some(c) => bin(Op::BroadcastAdd, raw, c),
            None => raw,
        };
        lemma_output(m, a, attended(None, scores, vx), b, len, i);
    }
}

/// A chunk attends to the first `klen` rows of the buffers, behind its mask.
pub proof fn law_chunk_hears_its_window<V>(
    m: Meaning<V>,
    a: Attention,
    q: Val,
    k: Val,
    v: Val,
    mask: Val,
    len: usize,
    klen: usize,
    i: int,
    item: spec_fn(int) -> (V, V),
    lo: int,
    hi: int,
)
    requires
        m.masks(),
        0 <= lo <= hi <= klen,
        ({
            let copies = Op::RepeatKv(a.num_kv_groups);
            let first = Op::Narrow { dim: 1, start: 0, len: klen };
            forall|j: int|
                #[trigger] item(j) == (
                    (m.score)(m.at(q.term, i), (m.un)(copies, m.at(un(first, k).term, j))),
                    (m.un)(copies, m.at(un(first, v).term, j)),
                )
        }),
        forall|j: int|
            0 <= j < klen ==> #[trigger] m.cell_at(mask.term, i, j) == (m.cell)(!(lo <= j < hi)),
    ensures
        m.at(a.prefix_mixed(q, k, v, mask, len, klen).term, i) == m.projected(
            a.o_proj,
            (m.mean)(m.taken(item, lo, hi - lo, m.nothing)),
        ),
{
    let copies = Op::RepeatKv(a.num_kv_groups);
    let first = Op::Narrow { dim: 1, start: 0, len: klen };
    let up = Op::Unsqueeze(0);
    let (kf, vf) = (un(first, k), un(first, v));
    let (kx, vx) = (un(copies, un(up, kf)), un(copies, un(up, vf)));
    let turned = Op::Transpose(2, 3);
    let raw = bin(Op::MatMul, q, un(turned, kx));
    lemma_un_extent(m, first, v);
    lemma_un_extent(m, up, vf);
    lemma_un_extent(m, copies, un(up, vf));
    assert forall|j: int| 0 <= j < m.len(vx.term) implies (
        m.cell_at(raw.term, i, j),
        #[trigger] m.at(vx.term, j),
    ) == item(j) by {
        lemma_laid_out(m, up, kf, j);
        lemma_laid_out(m, up, vf, j);
        lemma_at_un(m, copies, un(up, kf), j);
        lemma_at_un(m, copies, un(up, vf), j);
        lemma_cell_product(m, q, turned, kx, i, j);
    }
    lemma_window_heard(m, None, raw, Some(mask), vx, i, item, lo, hi);
    lemma_output(m, a, attended(None, bin(Op::BroadcastAdd, raw, mask), vx), 1, len, i);
}

/// A chunk on the device, and a step, attend to the whole extent of the buffers,
/// behind their masks: the row for query `i` of a block of rows, or the only one.
pub proof fn law_device_chunk_hears_its_window<V>(
    m: Meaning<V>,
    a: Attention,
    q: Val,
    k: Val,
    v: Val,
    mask: Val,
    len: usize,
    max_seq: usize,
    i: int,
    item: spec_fn(int) -> (V, V),
    lo: int,
    hi: int,
)
    requires
        m.masks(),
        0 <= lo <= hi <= m.len(v.term),
        ({
            let copies = Op::RepeatKv(a.num_kv_groups);
            forall|j: int|
                #[trigger] item(j) == (
                    (m.score)(m.at(q.term, i), (m.un)(copies, m.at(k.term, j))),
                    (m.un)(copies, m.at(v.term, j)),
                )
        }),
        forall|j: int|
            0 <= j < m.len(v.term) ==> #[trigger] m.cell_at(mask.term, i, j) == (m.cell)(
                !(lo <= j < hi),
            ),
    ensures
        m.at(a.extent_mixed(q, k, v, mask, len, max_seq).term, i) == m.projected(
            a.o_proj,
            (m.mean)(m.taken(item, lo, hi - lo, m.nothing)),
        ),
{
    let copies = Op::RepeatKv(a.num_kv_groups);
    let up = Op::Unsqueeze(0);
    let (kx, vx) = (un(copies, un(up, k)), un(copies, un(up, v)));
    let turned = Op::Transpose(2, 3);
    let to = Op::ToDType(DType::F32);
    let product = bin(Op::MatMul, q, un(turned, kx));
    let raw = un(to, product);
    let flat = Op::Reshape(d4(1, 1, len, max_seq));
    let rows = un(flat, mask);
    lemma_un_extent(m, up, v);
    lemma_un_extent(m, copies, un(up, v));
    assert forall|j: int| 0 <= j < m.len(vx.term) implies (
        m.cell_at(raw.term, i, j),
        #[trigger] m.at(vx.term, j),
    ) == item(j) by {
        lemma_laid_out(m, up, k, j);
        lemma_laid_out(m, up, v, j);
        lemma_at_un(m, copies, un(up, k), j);
        lemma_at_un(m, copies, un(up, v), j);
        lemma_cell_product(m, q, turned, kx, i, j);
        lemma_cell_un(m, to, product, i, j);
    }
    assert forall|j: int| 0 <= j < m.len(vx.term) implies #[trigger] m.cell_at(rows.term, i, j)
        == (m.cell)(!(lo <= j < hi)) by {
        lemma_cell_un(m, flat, mask, i, j);
        assert(m.cell_at(mask.term, i, j) == (m.cell)(!(lo <= j < hi)));
    }
    lemma_window_heard(m, Some(q.dtype), raw, Some(rows), vx, i, item, lo, hi);
    lemma_output(
        m,
        a,
        attended(Some(q.dtype), bin(Op::BroadcastAdd, raw, rows), vx),
        1,
        len,
        i,
    );
}

/// The same of a step, whose heads are grouped instead of copied.
pub proof fn law_step_hears_its_window<V>(
    m: Meaning<V>,
    a: Attention,
    q: Val,
    k: Val,
    v: Val,
    mask: Val,
    max_seq: usize,
    item: spec_fn(int) -> (V, V),
    lo: int,
    hi: int,
)
    requires
        m.masks(),
        0 <= lo <= hi <= m.len(v.term),
        forall|j: int|
            #[trigger] item(j) == (
                (m.score)(m.at(q.term, 0), m.at(k.term, j)),
                m.at(v.term, j),
            ),
        forall|j: int|
            0 <= j < m.len(v.term) ==> #[trigger] m.cell_at(mask.term, 0, j) == (m.cell)(
                !(lo <= j < hi),
            ),
    ensures
        m.at(a.step_mixed(q, k, v, mask, max_seq).term, 0) == m.projected(
            a.o_proj,
            (m.mean)(m.taken(item, lo, hi - lo, m.nothing)),
        ),
{
    let grouped = Op::Reshape(d3(a.num_kv_heads, a.num_kv_groups, a.head_dim));
    let q3 = un(grouped, q);
    let turned = Op::Transpose(1, 2);
    let to = Op::ToDType(DType::F32);
    let product = bin(Op::MatMul, q3, un(turned, k));
    let raw = un(to, product);
    let flat = Op::Reshape(d3(1, 1, max_seq));
    let rows = un(flat, mask);
    lemma_laid_out(m, grouped, q, 0);
    assert forall|j: int| 0 <= j < m.len(v.term) implies (
        m.cell_at(raw.term, 0, j),
        #[trigger] m.at(v.term, j),
    ) == item(j) by {
        lemma_cell_product(m, q3, turned, k, 0, j);
        lemma_cell_un(m, to, product, 0, j);
    }
    assert forall|j: int| 0 <= j < m.len(v.term) implies #[trigger] m.cell_at(rows.term, 0, j) == (
    m.cell)(!(lo <= j < hi)) by {
        lemma_cell_un(m, flat, mask, 0, j);
        assert(m.cell_at(mask.term, 0, j) == (m.cell)(!(lo <= j < hi)));
    }
    lemma_window_heard(m, Some(k.dtype), raw, Some(rows), v, 0, item, lo, hi);
    let y = attended(Some(k.dtype), bin(Op::BroadcastAdd, raw, rows), v);
    let wide = Op::Reshape(d3(1, 1, sat_product(a.num_heads, a.head_dim)));
    lemma_laid_out(m, wide, y, 0);
    lemma_at_proj(m, a.o_proj, un(wide, y), 0);
}

/// `q`, `k` and `v` hold the queries, keys and values of `x`, the first two rotated
/// by the rows of their positions, from `pos` on, of the table of the layer's type.
pub open spec fn placed_heads<V>(
    m: Meaning<V>,
    a: Attention,
    x: Val,
    b: usize,
    pos: int,
    q: Val,
    k: Val,
    v: Val,
) -> bool {
    let r = if a.is_sliding {
        a.rotary_emb_local
    } else {
        a.rotary_emb_global
    };
    let len = x.shape.d1;
    forall|i: int|
        {
            let (c, s) = ((m.row)(r.cos, pos + i), (m.row)(r.sin, pos + i));
            let w = #[trigger] m.at(x.term, i);
            &&& m.at(q.term, i) == (m.tri)(Op::Rope, query_row(m, a, x, b, len, w), c, s)
            &&& !a.is_kv_shared ==> m.at(k.term, i) == (m.tri)(
                Op::Rope,
                key_row(m, a, x, b, len, w),
                c,
                s,
            )
            &&& !a.is_kv_shared ==> m.at(v.term, i) == value_row(m, a, x, w)
        }
}

/// The heads of `x` are placed from `pos` on, by a slice of the tables or by the rows
/// that `idx` names, and stay so when they are laid out as rows.
proof fn lemma_placed<V>(
    m: Meaning<V>,
    a: Attention,
    x: Val,
    b: usize,
    pos: usize,
    idx: Val,
    rows: Op,
)
    requires
        rows is Reshape,
    ensures
        ({
            let len = x.shape.d1;
            let (q, k, v) = (a.query(x, b, len), a.key(x, b, len), a.value(x, b, len));
            let r = a.rotary();
            let (p, s) = (r.at_offset(q, pos, len), r.at_offset(k, pos, len));
            let (t, u) = (r.at_rows(q, idx), r.at_rows(k, idx));
            &&& placed_heads(m, a, x, b, pos as int, p, s, v)
            &&& placed_heads(m, a, x, b, pos as int, p, un(rows, s), un(rows, v))
            &&& counted_from(idx.term) matches Some(n) ==> placed_heads(
                m,
                a,
                x,
                b,
                n,
                t,
                un(rows, u),
                un(rows, v),
            )
        }),
{
    let len = x.shape.d1;
    let (q, k, v) = (a.query(x, b, len), a.key(x, b, len), a.value(x, b, len));
    let r = a.rotary();
    assert forall|i: int|
        {
            let w = #[trigger] m.at(x.term, i);
            let (query, key) = (query_row(m, a, x, b, len, w), key_row(m, a, x, b, len, w));
            let (c, s) = ((m.row)(r.cos, pos + i), (m.row)(r.sin, pos + i));
            &&& m.at(r.at_offset(q, pos, len).term, i) == (m.tri)(Op::Rope, query, c, s)
            &&& m.at(r.at_offset(k, pos, len).term, i) == (m.tri)(Op::Rope, key, c, s)
            &&& m.at(un(rows, r.at_offset(k, pos, len)).term, i) == (m.tri)(Op::Rope, key, c, s)
            &&& m.at(v.term, i) == value_row(m, a, x, w)
            &&& m.at(un(rows, v).term, i) == value_row(m, a, x, w)
            &&& counted_from(idx.term) matches Some(n) ==> ({
                let (c, s) = ((m.row)(r.cos, n + i), (m.row)(r.sin, n + i));
                &&& m.at(r.at_rows(q, idx).term, i) == (m.tri)(Op::Rope, query, c, s)
                &&& m.at(un(rows, r.at_rows(k, idx)).term, i) == (m.tri)(Op::Rope, key, c, s)
            })
        } by {
        law_heads_of_each_position(m, a, x, b, len, i);
        law_rotation_follows_position(m, r, q, pos, len, idx, i);
        law_rotation_follows_position(m, r, k, pos, len, idx, i);
        lemma_laid_out(m, rows, r.at_offset(k, pos, len), i);
        lemma_laid_out(m, rows, r.at_rows(k, idx), i);
        lemma_laid_out(m, rows, v, i);
    }
}

/// A pass places its heads from `offset` on, appends keys and values to the cache,
/// and attends to what the cache then hands out, behind the mask of its type; a layer
/// that shares reads those of an earlier one, and keeps nothing.
pub proof fn law_pass_attends_to_the_cache<V>(
    m: Meaning<V>,
    a: Attention,
    x: Val,
    mask: Option<Val>,
    sliding: Option<Val>,
    offset: usize,
    kv: LayerKv,
    kept: (Seq<Buf>, Bufs),
    shared: Shared,
)
    requires
        a.pass(x, mask, sliding, offset, kv, kept.0, kept.1, shared) is Ok,
    ensures
        exists|q: Val, k: Val, v: Val|
            #[trigger] placed_heads(m, a, x, x.shape.d0, offset as int, q, k, v) && ({
                let o = a.pass(x, mask, sliding, offset, kv, kept.0, kept.1, shared)->Ok_0;
                let own = if a.is_sliding {
                    sliding
                } else {
                    mask
                };
                let (b, len) = (x.shape.d0, x.shape.d1);
                if a.is_kv_shared {
                    &&& shared.slot(a.is_sliding) matches Some((k, v))
                    &&& o.out == a.mixed(q, k, v, own, b, len)
                    &&& o.bufs == kept.1 && o.buffers == kept.0 && o.kv == kv && o.shared == shared
                } else {
                    let (ka, va) = kv.cache.views(kept.0, kept.1, k, v);
                    &&& o.out == a.mixed(q, ka, va, own, b, len)
                    &&& o.bufs == kv.cache.bufs_after(kept.0, kept.1, k, v)
                    &&& o.kv.cache == kv.cache.after(kept.0, k, v)
                    &&& o.kv.statics == kv.statics
                    &&& o.shared == (if a.store_full_length_kv {
                        shared.with(a.is_sliding, ka, va)
                    } else {
                        shared
                    })
                }
            }),
{
    let (b, len) = (x.shape.d0, x.shape.d1);
    let q = a.rotary().at_offset(a.query(x, b, len), offset, len);
    let k = a.rotary().at_offset(a.key(x, b, len), offset, len);
    lemma_placed(m, a, x, b, offset, x, Op::Reshape(x.shape));
    assert(placed_heads(m, a, x, b, offset as int, q, k, a.value(x, b, len)));
}

/// A chunk places its heads from `pos` on, writes keys and values to the rows from
/// `pos` on, and attends to everything up to its end, behind the mask of its type.
pub proof fn law_chunk_attends_to_the_buffers<V>(
    m: Meaning<V>,
    a: Attention,
    device: Device,
    x: Val,
    ctx: StaticCtx,
    pos: usize,
    kv: LayerKv,
    kept: (Seq<Buf>, Bufs),
    shared: Shared,
)
    requires
        a.chunk_pass(device, x, ctx, pos, kv, kept.0, kept.1, shared) is Ok,
    ensures
        exists|q: Val, k: Val, v: Val|
            #[trigger] placed_heads(m, a, x, 1, pos as int, q, k, v) && ({
                let o = a.chunk_pass(device, x, ctx, pos, kv, kept.0, kept.1, shared)->Ok_0;
                let len = x.shape.d1;
                let window = if a.is_sliding {
                    Some(ctx.sliding_window)
                } else {
                    None
                };
                let mask = decoder_mask(1, len, pos, window, x.dtype);
                let end = sat_sum(pos, len);
                if a.is_kv_shared {
                    &&& shared.slot(a.is_sliding) matches Some((k, v))
                    &&& o.out == a.prefix_mixed(q, k, v, mask, len, end)
                    &&& o.bufs == kept.1 && o.buffers == kept.0 && o.kv == kv && o.shared == shared
                } else {
                    let p = a.static_pair(kv, kept.0, ctx.max_seq, x.dtype);
                    let ready = Attention::static_ready(kv, kept.1, p);
                    let (kb, vb) = (held(o.bufs, p.k), held(o.bufs, p.v));
                    &&& rows_effect(device, ready, p.k, k, pos) matches Ok(b)
                    &&& rows_effect(device, b, p.v, v, pos) == Ok::<Bufs, Error>(o.bufs)
                    &&& o.out == a.prefix_mixed(q, kb, vb, mask, len, end)
                    &&& o.shared == (if a.store_full_length_kv {
                        shared.with(a.is_sliding, kb, vb)
                    } else {
                        shared
                    })
                }
            }),
{
    let len = x.shape.d1;
    let rows = Op::Reshape(d3(a.num_kv_heads, len, a.head_dim));
    let q = a.rotary().at_offset(a.query(x, 1, len), pos, len);
    let k = un(rows, a.rotary().at_offset(a.key(x, 1, len), pos, len));
    lemma_placed(m, a, x, 1, pos, x, rows);
    assert(placed_heads(m, a, x, 1, pos as int, q, k, un(rows, a.value(x, 1, len))));
}

/// A chunk on the device does the same at the position that a buffer holds, by the
/// rotary rows and the mask that other buffers hold.
pub proof fn law_device_chunk_attends_to_the_buffers<V>(
    m: Meaning<V>,
    a: Attention,
    device: Device,
    x: Val,
    ctx: StaticCtx,
    kv: LayerKv,
    kept: (Seq<Buf>, Bufs),
    shared: Shared,
    n: int,
)
    requires
        a.chunk_dev_pass(device, x, ctx, kv, kept.0, kept.1, shared) is Ok,
        counted_from(kept.1[ctx.chunk->0.rope_idx.id as int]) == Some(n),
    ensures
        exists|q: Val, k: Val, v: Val|
            #[trigger] placed_heads(m, a, x, 1, n, q, k, v) && ({
                let o = a.chunk_dev_pass(device, x, ctx, kv, kept.0, kept.1, shared)->Ok_0;
                let (len, all) = (x.shape.d1, ctx.max_seq);
                let c = ctx.chunk->0;
                let mask = if a.is_sliding {
                    c.mask_sliding
                } else {
                    c.mask_global
                };
                if a.is_kv_shared {
                    &&& shared.slot(a.is_sliding) matches Some((k, v))
                    &&& o.out == a.extent_mixed(q, k, v, held(kept.1, mask), len, all)
                    &&& o.bufs == kept.1 && o.buffers == kept.0 && o.kv == kv && o.shared == shared
                } else {
                    let p = a.static_pair(kv, kept.0, ctx.max_seq, x.dtype);
                    let ready = Attention::static_ready(kv, kept.1, p);
                    let (kb, vb) = (held(o.bufs, p.k), held(o.bufs, p.v));
                    &&& rows_at_effect(device, ready, p.k, k, ctx.pos) matches Ok(b)
                    &&& rows_at_effect(device, b, p.v, v, ctx.pos) == Ok::<Bufs, Error>(o.bufs)
                    &&& o.out == a.extent_mixed(q, kb, vb, held(o.bufs, mask), len, all)
                    &&& o.shared == (if a.store_full_length_kv {
                        shared.with(a.is_sliding, kb, vb)
                    } else {
                        shared
                    })
                }
            }),
{
    let len = x.shape.d1;
    let idx = held(kept.1, ctx.chunk->0.rope_idx);
    let rows = Op::Reshape(d3(a.num_kv_heads, len, a.head_dim));
    let q = a.rotary().at_rows(a.query(x, 1, len), idx);
    let k = un(rows, a.rotary().at_rows(a.key(x, 1, len), idx));
    lemma_placed(m, a, x, 1, 0, idx, rows);
    assert(placed_heads(m, a, x, 1, n, q, k, un(rows, a.value(x, 1, len))));
}

/// A step places the heads of its token at the position that a buffer holds, writes its
/// key and value to that row, and attends behind the mask of its type.
pub proof fn law_step_attends_to_the_buffers<V>(
    m: Meaning<V>,
    a: Attention,
    device: Device,
    x: Val,
    ctx: StaticCtx,
    kv: LayerKv,
    kept: (Seq<Buf>, Bufs),
    shared: Shared,
    n: int,
)
    requires
        x.shape.d1 == 1,
        a.step_pass(device, x, ctx, kv, kept.0, kept.1, shared) is Ok,
        counted_from(kept.1[ctx.pos.id as int]) == Some(n),
    ensures
        exists|q: Val, k: Val, v: Val|
            #[trigger] placed_heads(m, a, x, 1, n, q, k, v) && ({
                let o = a.step_pass(device, x, ctx, kv, kept.0, kept.1, shared)->Ok_0;
                let mask = if a.is_sliding {
                    ctx.mask_sliding
                } else {
                    ctx.mask_global
                };
                if a.is_kv_shared {
                    &&& shared.slot(a.is_sliding) matches Some((k, v))
                    &&& o.out == a.step_mixed(q, k, v, held(kept.1, mask), ctx.max_seq)
                    &&& o.bufs == kept.1 && o.buffers == kept.0 && o.kv == kv && o.shared == shared
                } else {
                    let p = a.static_pair(kv, kept.0, ctx.max_seq, x.dtype);
                    let ready = Attention::static_ready(kv, kept.1, p);
                    let (kb, vb) = (held(o.bufs, p.k), held(o.bufs, p.v));
                    &&& kv_write_effect(device, ready, p.k, p.v, k, v, ctx.pos) == Ok::<Bufs, Error>(
                        o.bufs,
                    )
                    &&& o.out == a.step_mixed(q, kb, vb, held(o.bufs, mask), ctx.max_seq)
                    &&& o.shared == (if a.store_full_length_kv {
                        shared.with(a.is_sliding, kb, vb)
                    } else {
                        shared
                    })
                }
            }),
{
    let at = held(kept.1, ctx.pos);
    let row = Op::Reshape(d2(a.num_kv_heads, a.head_dim));
    let q = a.rotary().at_rows(a.query(x, 1, 1), at);
    let k = un(row, a.rotary().at_rows(a.key(x, 1, 1), at));
    lemma_placed(m, a, x, 1, 0, at, row);
    assert(placed_heads(m, a, x, 1, n, q, k, un(row, a.value(x, 1, 1))));
}

} // verus!
