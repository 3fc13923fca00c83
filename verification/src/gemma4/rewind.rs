//! What steps and chunks may remember.
//!
//! Two runs of the static path whose buffers hold the same wherever the queries
//! can see give the same, in the rows in which their inputs agree. A rewound model
//! and a new one are two such runs, and so are two paddings of one prompt.
use vstd::prelude::*;

use crate::dtype::{DType, Device};
use crate::fused::{residual_norm, residual_sum};
use crate::gemma4::alike::{
    agree, agree_opt, lemma_agree_bin, lemma_agree_finished, lemma_agree_mlp, lemma_agree_norm,
    lemma_agree_proj, lemma_agree_residual, lemma_agree_router, lemma_agree_self, lemma_agree_un,
    lemma_agree_v_norm, plans_agree,
};
use crate::gemma4::attention::{AttnOut, Attention, Stop};
use crate::gemma4::context::{LayerKv, Shared, StaticCtx};
use crate::gemma4::layer::{DecoderLayer, HalfwayOut, ModeVal};
use crate::gemma4::masked::step_scores;
use crate::gemma4::model::{slice_of, Flow, Outcome, Pass, Ran, TaskVal, TextModel};
use crate::gemma4::moe::MoeBlock;
use crate::gemma4::norm::RotaryEmbedding;
use crate::kv_cache::KvBufs;
use crate::masks::blocked;
use crate::positions::{
    attended, block_cell, blocked_score, counted_from, counts_alike, law_blocked_keys_do_not_matter,
    lemma_bin_extent, lemma_cell_bin, lemma_cell_product, lemma_cell_un, lemma_row_written,
    lemma_same_tri, lemma_un_extent, Meaning,
};
use crate::rows::cell_blocked;
use crate::shape::{d2, d3, d4, sat_product};
use crate::static_decode::{advance_effect, counted, kv_write_effect, rows_at_effect};
use crate::tape::{
    bin, held, leaf, opt_val, tri, tri_term, un, Buf, Bufs, Op, Scalar, Term, Val, Weight,
};

verus! {

/// The window of a layer's mask.
pub open spec fn window_of(a: Attention, ctx: StaticCtx) -> Option<usize> {
    if a.is_sliding && ctx.sliding_window > 0 {
        Some(ctx.sliding_window)
    } else {
        None
    }
}

/// The context of a static mode.
pub open spec fn ctx_of(mode: ModeVal) -> StaticCtx {
    match mode {
        ModeVal::Step(ctx) => ctx,
        ModeVal::ChunkDev(ctx) => ctx,
        ModeVal::Chunk(ctx, _) => ctx,
        ModeVal::Dynamic(_, _, _) => arbitrary(),
    }
}

/// Buffer `id` holds something that a static mode reads or counts in.
pub open spec fn of_mode(mode: ModeVal, id: int) -> bool {
    let ctx = ctx_of(mode);
    ||| id == ctx.pos.id
    ||| id == ctx.mask_global.id
    ||| id == ctx.mask_sliding.id
    ||| ctx.chunk matches Some(c) && (id == c.ids.id || id == c.rope_idx.id || id
        == c.mask_global.id || id == c.mask_sliding.id)
}

/// The position counts `p`, and the masks show to row `i` what is not after
/// position `p + i` and in the window of the layer.
pub open spec fn stands_at(mode: ModeVal, p: int, bufs: Bufs) -> bool {
    let ctx = ctx_of(mode);
    let window = if ctx.sliding_window > 0 { Some(ctx.sliding_window) } else { None };
    &&& counted(bufs[ctx.pos.id as int]) == Some(p)
    &&& match mode {
        ModeVal::Step(_) => {
            &&& forall|j: int| #[trigger]
                cell_blocked(bufs[ctx.mask_global.id as int], j) == Some(blocked(p, j, None))
            &&& forall|j: int| #[trigger]
                cell_blocked(bufs[ctx.mask_sliding.id as int], j) == Some(blocked(p, j, window))
        },
        ModeVal::ChunkDev(_) => ctx.chunk matches Some(c) && {
            &&& counted_from(bufs[c.rope_idx.id as int]) == Some(p)
            &&& forall|i: int, j: int| #[trigger]
                block_cell(bufs[c.mask_global.id as int], i, j) == Some(blocked(p + i, j, None))
            &&& forall|i: int, j: int| #[trigger]
                block_cell(bufs[c.mask_sliding.id as int], i, j) == Some(
                    blocked(p + i, j, Some(ctx.sliding_window)),
                )
        },
        _ => false,
    }
}

/// The buffers that a static mode works with are apart from each other.
pub open spec fn mode_apart(ctx: StaticCtx) -> bool {
    &&& ctx.pos.id != ctx.mask_global.id && ctx.pos.id != ctx.mask_sliding.id
    &&& ctx.mask_global.id != ctx.mask_sliding.id
    &&& ctx.chunk matches Some(c) ==> {
        &&& ctx.pos.id != c.ids.id && ctx.pos.id != c.rope_idx.id
        &&& ctx.pos.id != c.mask_global.id && ctx.pos.id != c.mask_sliding.id
        &&& c.ids.id != c.rope_idx.id && c.ids.id != c.mask_global.id
        &&& c.ids.id != c.mask_sliding.id && c.rope_idx.id != c.mask_global.id
        &&& c.rope_idx.id != c.mask_sliding.id && c.mask_global.id != c.mask_sliding.id
    }
}

/// A layer keeps its keys or values in buffer `id`.
pub open spec fn uses(kv: LayerKv, id: int) -> bool {
    kv.statics matches Some(p) && (p.k.id == id || p.v.id == id)
}

/// Layers that keep keys and values have buffers of their own for them, among the
/// first `n`.
pub open spec fn own_buffers(kvs: Seq<LayerKv>, mode: ModeVal, n: int) -> bool {
    &&& forall|id: int| #[trigger] of_mode(mode, id) ==> id < n
    &&& forall|i: int|
        0 <= i < kvs.len() ==> ((#[trigger] kvs[i]).statics matches Some(p) ==> p.k.id != p.v.id)
    &&& forall|i: int, id: int|
        0 <= i < kvs.len() && #[trigger] uses(kvs[i], id) ==> id < n && !of_mode(mode, id)
    &&& forall|i: int, j: int, id: int|
        0 <= i < kvs.len() && 0 <= j < kvs.len() && i != j && #[trigger] uses(kvs[i], id) ==> !(
        #[trigger] uses(kvs[j], id))
}

/// The first `n` rows of keys and values of a layer hold the same in two runs.
pub open spec fn kept_alike<V>(m: Meaning<V>, kv: LayerKv, n: int, a: Bufs, b: Bufs) -> bool {
    kv.statics matches Some(p) ==> pair_alike(m, (held(a, p.k), held(a, p.v)), (
        held(b, p.k),
        held(b, p.v),
    ), n)
}

/// Two pairs of keys and values hold the same in the first `n` rows.
pub open spec fn pair_alike<V>(m: Meaning<V>, a: (Val, Val), b: (Val, Val), n: int) -> bool {
    &&& a.0.shape == b.0.shape && a.0.dtype == b.0.dtype
    &&& a.1.shape == b.1.shape && a.1.dtype == b.1.dtype
    &&& m.len(a.1.term) == m.len(b.1.term)
    &&& forall|j: int| 0 <= j < n ==> #[trigger] m.at(a.0.term, j) == m.at(b.0.term, j)
    &&& forall|j: int| 0 <= j < n ==> #[trigger] m.at(a.1.term, j) == m.at(b.1.term, j)
}

/// What was stored for later layers holds the same in the first `n` rows.
pub open spec fn shared_alike<V>(m: Meaning<V>, a: Shared, b: Shared, n: int) -> bool {
    &&& slot_alike(m, a.full, b.full, n)
    &&& slot_alike(m, a.sliding, b.sliding, n)
}

pub open spec fn slot_alike<V>(
    m: Meaning<V>,
    a: Option<(Val, Val)>,
    b: Option<(Val, Val)>,
    n: int,
) -> bool {
    match (a, b) {
        (Some(x), Some(y)) => pair_alike(m, x, y, n),
        (None, None) => true,
        _ => false,
    }
}

/// Rotation by the rows from a counted position on.
pub(crate) proof fn lemma_agree_turn<V>(
    m: Meaning<V>,
    r: RotaryEmbedding,
    x: (Val, Val),
    idx: (Val, Val),
    rows: int,
)
    requires
        agree(m, x.0, x.1, rows),
        counted_from(idx.0.term) is Some,
        counted_from(idx.0.term) == counted_from(idx.1.term),
    ensures
        agree(m, r.at_rows(x.0, idx.0), r.at_rows(x.1, idx.1), rows),
        m.len(r.at_rows(x.0, idx.0).term) == m.len(x.0.term),
{
    let row = |w: Weight, p: Val| bin(Op::IndexSelect(0), leaf(Op::Param(w)), p);
    assert forall|i: int| 0 <= i < rows implies #[trigger] m.same(
        r.at_rows(x.0, idx.0),
        i,
        r.at_rows(x.1, idx.1),
        i,
    ) by {
        assert(m.same(x.0, i, x.1, i));
        lemma_rows_from(m, r.cos, idx.0, i);
        lemma_rows_from(m, r.cos, idx.1, i);
        lemma_rows_from(m, r.sin, idx.0, i);
        lemma_rows_from(m, r.sin, idx.1, i);
        lemma_same_tri(
            m,
            Op::Rope,
            (x.0, row(r.cos, idx.0), row(r.sin, idx.0)),
            i,
            (x.1, row(r.cos, idx.1), row(r.sin, idx.1)),
            i,
        );
    }
    let a = (x.0, row(r.cos, idx.0), row(r.sin, idx.0));
    let b = (x.1, row(r.cos, idx.1), row(r.sin, idx.1));
    lemma_same_tri(m, Op::Rope, a, 0, a, 0);
    lemma_same_tri(m, Op::Rope, b, 0, b, 0);
    reveal(tri);
}

/// The rows of a table from a counted position on.
pub proof fn lemma_rows_from<V>(m: Meaning<V>, w: Weight, p: Val, i: int)
    requires
        counted_from(p.term) is Some,
    ensures
        m.at(bin(Op::IndexSelect(0), leaf(Op::Param(w)), p).term, i) == (m.row)(
            w,
            counted_from(p.term)->0 + i,
        ),
{
    reveal(bin);
}

/// Queries, keys and values of rows that agree.
pub(crate) proof fn lemma_agree_heads<V>(
    m: Meaning<V>,
    a: Attention,
    x: Val,
    y: Val,
    len: usize,
    r: int,
)
    requires
        agree(m, x, y, r),
    ensures
        agree(m, a.query(x, 1, len), a.query(y, 1, len), r),
        m.len(a.query(x, 1, len).term) == m.len(x.term),
        agree(m, a.key(x, 1, len), a.key(y, 1, len), r),
        m.len(a.key(x, 1, len).term) == m.len(x.term),
        agree(m, a.value(x, 1, len), a.value(y, 1, len), r),
        m.len(a.value(x, 1, len).term) == m.len(x.term),
{
    lemma_agree_split(m, a, a.q_proj, a.num_heads, x, y, len, r);
    let (qx, qy) = (
        a.heads(a.q_proj.apply(x), a.num_heads, 1, len),
        a.heads(a.q_proj.apply(y), a.num_heads, 1, len),
    );
    lemma_agree_norm(m, a.q_norm, qx, qy, r);
    lemma_agree_split(m, a, a.k_proj->0, a.num_kv_heads, x, y, len, r);
    let (kx, ky) = (a.key_raw(x, 1, len), a.key_raw(y, 1, len));
    lemma_agree_norm(m, a.k_norm->0, kx, ky, r);
    if let Some(p) = a.v_proj {
        lemma_agree_split(m, a, p, a.num_kv_heads, x, y, len, r);
        lemma_agree_v_norm(
            m,
            a.rms_norm_eps,
            a.heads(p.apply(x), a.num_kv_heads, 1, len),
            a.heads(p.apply(y), a.num_kv_heads, 1, len),
            r,
        );
    } else {
        lemma_agree_v_norm(m, a.rms_norm_eps, kx, ky, r);
    }
}

proof fn lemma_agree_split<V>(
    m: Meaning<V>,
    a: Attention,
    p: crate::loader::Proj,
    n: usize,
    x: Val,
    y: Val,
    len: usize,
    r: int,
)
    requires
        agree(m, x, y, r),
    ensures
        agree(m, a.heads(p.apply(x), n, 1, len), a.heads(p.apply(y), n, 1, len), r),
        m.len(a.heads(p.apply(x), n, 1, len).term) == m.len(x.term),
{
    let split = Op::Reshape(d4(1, len, n, a.head_dim));
    lemma_agree_proj(m, p, x, y, r);
    lemma_agree_un(m, split, p.apply(x), p.apply(y), r);
    lemma_agree_un(m, Op::Transpose(1, 2), un(split, p.apply(x)), un(split, p.apply(y)), r);
}

/// Attention over keys that count alike, row by row.
pub(crate) proof fn lemma_agree_attended<V>(
    m: Meaning<V>,
    to: Option<DType>,
    s: (Val, Val),
    v: (Val, Val),
    r: int,
)
    requires
        m.masks(),
        m.len(v.0.term) == m.len(v.1.term),
        m.len(s.0.term) == m.len(s.1.term),
        s.0.shape == s.1.shape && s.0.dtype == s.1.dtype,
        v.0.shape == v.1.shape,
        forall|i: int, j: int|
            0 <= i < r && 0 <= j < m.len(v.0.term) ==> #[trigger] counts_alike(
                m,
                (s.0, v.0),
                (s.1, v.1),
                i,
                j,
            ),
    ensures
        agree(m, attended(to, s.0, v.0), attended(to, s.1, v.1), r),
        m.len(attended(to, s.0, v.0).term) == m.len(s.0.term),
{
    assert forall|i: int| 0 <= i < r implies #[trigger] m.same(
        attended(to, s.0, v.0),
        i,
        attended(to, s.1, v.1),
        i,
    ) by {
        law_blocked_keys_do_not_matter(m, to, (s.0, v.0), (s.1, v.1), i);
    }
    let soft = Op::SoftmaxLast;
    lemma_un_extent(m, soft, s.0);
    lemma_un_extent(m, soft, s.1);
    let probs = |x: Val| match to {
        Some(d) => un(Op::ToDType(d), un(soft, x)),
        None => un(soft, x),
    };
    if let Some(d) = to {
        lemma_un_extent(m, Op::ToDType(d), un(soft, s.0));
        lemma_un_extent(m, Op::ToDType(d), un(soft, s.1));
    }
    lemma_bin_extent(m, Op::MatMul, probs(s.0), v.0);
    lemma_bin_extent(m, Op::MatMul, probs(s.1), v.1);
    reveal(un);
    reveal(bin);
}

/// Two masked scores of key `j` count alike: the mask is the same, and where it
/// shows the key, the scores and the values are.
proof fn lemma_counts<V>(
    m: Meaning<V>,
    s: (Val, Val),
    v: (Val, Val),
    c: (V, V),
    hidden: bool,
    i: int,
    j: int,
)
    requires
        m.cell_at(s.0.term, i, j) == (m.bin)(Op::BroadcastAdd, c.0, (m.cell)(hidden)),
        m.cell_at(s.1.term, i, j) == (m.bin)(Op::BroadcastAdd, c.1, (m.cell)(hidden)),
        !hidden ==> c.0 == c.1 && m.same(v.0, j, v.1, j),
    ensures
        counts_alike(m, (s.0, v.0), (s.1, v.1), i, j),
{
    if hidden {
        assert(blocked_score(m, m.cell_at(s.0.term, i, j)));
        assert(blocked_score(m, m.cell_at(s.1.term, i, j)));
    }
}

/// A step over buffers that hold the same up to its position.
proof fn lemma_step_mixed_alike<V>(
    m: Meaning<V>,
    a: Attention,
    q: (Val, Val),
    k: (Val, Val),
    v: (Val, Val),
    mask: (Val, Val),
    max_seq: usize,
    p: int,
    w: Option<usize>,
)
    requires
        m.masks(),
        agree(m, q.0, q.1, 1),
        pair_alike(m, (k.0, v.0), (k.1, v.1), p + 1),
        mask.0.shape == mask.1.shape,
        forall|j: int| #[trigger] cell_blocked(mask.0.term, j) == Some(blocked(p, j, w)),
        forall|j: int| #[trigger] cell_blocked(mask.1.term, j) == Some(blocked(p, j, w)),
    ensures
        agree(
            m,
            a.step_mixed(q.0, k.0, v.0, mask.0, max_seq),
            a.step_mixed(q.1, k.1, v.1, mask.1, max_seq),
            1,
        ),
        m.len(a.step_mixed(q.0, k.0, v.0, mask.0, max_seq).term) == m.len(q.0.term),
{
    let (sa, sb) = (
        step_scores(a, q.0, k.0, mask.0, max_seq),
        step_scores(a, q.1, k.1, mask.1, max_seq),
    );
    assert(m.same(q.0, 0, q.1, 0));
    assert forall|i: int, j: int| 0 <= i < 1 && 0 <= j < m.len(v.0.term) implies
        #[trigger] counts_alike(m, (sa, v.0), (sb, v.1), i, j) by {
        assert(cell_blocked(mask.0.term, j) == Some(blocked(p, j, w)));
        assert(cell_blocked(mask.1.term, j) == Some(blocked(p, j, w)));
        crate::gemma4::masked::lemma_step_score(m, a, q.0, k.0, mask.0, max_seq, j);
        crate::gemma4::masked::lemma_step_score(m, a, q.1, k.1, mask.1, max_seq, j);
        if !blocked(p, j, w) {
            assert(m.at(k.0.term, j) == m.at(k.1.term, j));
            assert(m.at(v.0.term, j) == m.at(v.1.term, j));
        }
        lemma_counts(
            m,
            (sa, sb),
            v,
            (
                (m.score)(m.at(q.0.term, 0), m.at(k.0.term, j)),
                (m.score)(m.at(q.1.term, 0), m.at(k.1.term, j)),
            ),
            blocked(p, j, w),
            0,
            j,
        );
    }
    let grouped = Op::Reshape(d3(a.num_kv_heads, a.num_kv_groups, a.head_dim));
    let turned = Op::Transpose(1, 2);
    let to = Op::ToDType(DType::F32);
    let flat = Op::Reshape(d3(1, 1, max_seq));
    let product = |q: Val, k: Val| bin(Op::MatMul, un(grouped, q), un(turned, k));
    let scored = |q: Val, k: Val, mk: Val|
        bin(Op::BroadcastAdd, un(to, product(q, k)), un(flat, mk));
    assert(sa == scored(q.0, k.0, mask.0) && sb == scored(q.1, k.1, mask.1));
    lemma_score_extent(m, grouped, turned, to, flat, q.0, k.0, mask.0);
    lemma_score_extent(m, grouped, turned, to, flat, q.1, k.1, mask.1);
    assert(sa.shape == sb.shape && sa.dtype == sb.dtype) by {
        reveal(un);
        reveal(bin);
    }
    lemma_agree_attended(m, Some(k.0.dtype), (sa, sb), v, 1);
    let (oa, ob) = (attended(Some(k.0.dtype), sa, v.0), attended(Some(k.0.dtype), sb, v.1));
    let wide = Op::Reshape(d3(1, 1, sat_product(a.num_heads, a.head_dim)));
    lemma_agree_un(m, wide, oa, ob, 1);
    lemma_agree_proj(m, a.o_proj, un(wide, oa), un(wide, ob), 1);
}

/// Scores have the positions of the queries.
pub(crate) proof fn lemma_score_extent<V>(
    m: Meaning<V>,
    grouped: Op,
    turned: Op,
    to: Op,
    flat: Op,
    q: Val,
    k: Val,
    mask: Val,
)
    requires
        grouped is Reshape && turned is Transpose && to is ToDType && flat is Reshape,
    ensures
        ({
            let product = bin(Op::MatMul, un(grouped, q), un(turned, k));
            m.len(bin(Op::BroadcastAdd, un(to, product), un(flat, mask)).term) == m.len(q.term)
        }),
{
    let product = bin(Op::MatMul, un(grouped, q), un(turned, k));
    lemma_un_extent(m, grouped, q);
    lemma_bin_extent(m, Op::MatMul, un(grouped, q), un(turned, k));
    lemma_un_extent(m, to, product);
    lemma_bin_extent(m, Op::BroadcastAdd, un(to, product), un(flat, mask));
}

/// A chunk over buffers that hold the same up to its last row that agrees.
proof fn lemma_extent_mixed_alike<V>(
    m: Meaning<V>,
    a: Attention,
    q: (Val, Val),
    k: (Val, Val),
    v: (Val, Val),
    mask: (Val, Val),
    len: usize,
    max_seq: usize,
    p: int,
    w: Option<usize>,
    r: int,
)
    requires
        m.masks(),
        agree(m, q.0, q.1, r),
        pair_alike(m, (k.0, v.0), (k.1, v.1), p + r),
        mask.0.shape == mask.1.shape,
        forall|i: int, j: int| #[trigger]
            block_cell(mask.0.term, i, j) == Some(blocked(p + i, j, w)),
        forall|i: int, j: int| #[trigger]
            block_cell(mask.1.term, i, j) == Some(blocked(p + i, j, w)),
    ensures
        agree(
            m,
            a.extent_mixed(q.0, k.0, v.0, mask.0, len, max_seq),
            a.extent_mixed(q.1, k.1, v.1, mask.1, len, max_seq),
            r,
        ),
        m.len(a.extent_mixed(q.0, k.0, v.0, mask.0, len, max_seq).term) == m.len(q.0.term),
{
    let (rep, up) = (Op::RepeatKv(a.num_kv_groups), Op::Unsqueeze(0));
    let turned = Op::Transpose(2, 3);
    let to = Op::ToDType(DType::F32);
    let flat = Op::Reshape(d4(1, 1, len, max_seq));
    let (ka, kb) = (un(rep, un(up, k.0)), un(rep, un(up, k.1)));
    let (va, vb) = (un(rep, un(up, v.0)), un(rep, un(up, v.1)));
    let (pa, pb) = (
        bin(Op::MatMul, q.0, un(turned, ka)),
        bin(Op::MatMul, q.1, un(turned, kb)),
    );
    let (sa, sb) = (
        bin(Op::BroadcastAdd, un(to, pa), un(flat, mask.0)),
        bin(Op::BroadcastAdd, un(to, pb), un(flat, mask.1)),
    );
    lemma_un_extent(m, up, v.0);
    lemma_un_extent(m, up, v.1);
    lemma_un_extent(m, rep, un(up, v.0));
    lemma_un_extent(m, rep, un(up, v.1));
    assert forall|i: int, j: int| 0 <= i < r && 0 <= j < m.len(va.term) implies
        #[trigger] counts_alike(m, (sa, va), (sb, vb), i, j) by {
        let hidden = blocked(p + i, j, w);
        lemma_block_score(m, q.0, ka, mask.0, turned, to, flat, p, w, i, j);
        lemma_block_score(m, q.1, kb, mask.1, turned, to, flat, p, w, i, j);
        assert(m.same(q.0, i, q.1, i));
        if !hidden {
            assert(m.at(k.0.term, j) == m.at(k.1.term, j));
            assert(m.at(v.0.term, j) == m.at(v.1.term, j));
            assert(m.at(ka.term, j) == m.at(kb.term, j) && m.at(va.term, j) == m.at(vb.term, j))
                by {
                reveal(un);
                reveal_with_fuel(Meaning::at, 3);
            }
        }
        lemma_counts(
            m,
            (sa, sb),
            (va, vb),
            (
                (m.score)(m.at(q.0.term, i), m.at(ka.term, j)),
                (m.score)(m.at(q.1.term, i), m.at(kb.term, j)),
            ),
            hidden,
            i,
            j,
        );
    }
    lemma_bin_extent(m, Op::MatMul, q.0, un(turned, ka));
    lemma_bin_extent(m, Op::MatMul, q.1, un(turned, kb));
    lemma_un_extent(m, to, pa);
    lemma_un_extent(m, to, pb);
    lemma_bin_extent(m, Op::BroadcastAdd, un(to, pa), un(flat, mask.0));
    lemma_bin_extent(m, Op::BroadcastAdd, un(to, pb), un(flat, mask.1));
    assert(sa.shape == sb.shape && sa.dtype == sb.dtype && va.shape == vb.shape) by {
        reveal(un);
        reveal(bin);
    }
    let d = Some(q.0.dtype);
    lemma_agree_attended(m, d, (sa, sb), (va, vb), r);
    let (oa, ob) = (attended(d, sa, va), attended(d, sb, vb));
    let wide = Op::Reshape(d3(1, len, sat_product(a.num_heads, a.head_dim)));
    let swap = Op::Transpose(1, 2);
    lemma_agree_un(m, swap, oa, ob, r);
    lemma_agree_un(m, wide, un(swap, oa), un(swap, ob), r);
    lemma_agree_proj(m, a.o_proj, un(wide, un(swap, oa)), un(wide, un(swap, ob)), r);
}

/// The score of key `j` for row `i`, with its cell of the block of masks.
proof fn lemma_block_score<V>(
    m: Meaning<V>,
    q: Val,
    k: Val,
    mask: Val,
    turned: Op,
    to: Op,
    flat: Op,
    p: int,
    w: Option<usize>,
    i: int,
    j: int,
)
    requires
        turned is Transpose && to is ToDType && flat is Reshape,
        block_cell(mask.term, i, j) == Some(blocked(p + i, j, w)),
    ensures
        ({
            let product = bin(Op::MatMul, q, un(turned, k));
            m.cell_at(bin(Op::BroadcastAdd, un(to, product), un(flat, mask)).term, i, j) == (
            m.bin)(
                Op::BroadcastAdd,
                (m.score)(m.at(q.term, i), m.at(k.term, j)),
                (m.cell)(blocked(p + i, j, w)),
            )
        }),
{
    let product = bin(Op::MatMul, q, un(turned, k));
    lemma_cell_product(m, q, turned, k, i, j);
    lemma_cell_un(m, to, product, i, j);
    lemma_cell_un(m, flat, mask, i, j);
    lemma_cell_bin(m, Op::BroadcastAdd, un(to, product), un(flat, mask), i, j);
    assert(m.cell_at(mask.term, i, j) == (m.cell)(blocked(p + i, j, w)));
}

/// What a mode reads stays where it was.
proof fn lemma_stands_frame(mode: ModeVal, p: int, a: Bufs, b: Bufs)
    requires
        stands_at(mode, p, a),
        forall|id: int| #[trigger] of_mode(mode, id) ==> b[id] == a[id],
    ensures
        stands_at(mode, p, b),
{
    let ctx = ctx_of(mode);
    assert(of_mode(mode, ctx.pos.id as int));
    assert(of_mode(mode, ctx.mask_global.id as int));
    assert(of_mode(mode, ctx.mask_sliding.id as int));
    if let Some(c) = ctx.chunk {
        assert(of_mode(mode, c.rope_idx.id as int));
        assert(of_mode(mode, c.mask_global.id as int));
        assert(of_mode(mode, c.mask_sliding.id as int));
    }
}

/// What a layer keeps after it has been through: keys and values in buffers that
/// were there, or in the next two. A layer that shares keeps what it had.
pub open spec fn grown(
    shares: bool,
    before: (LayerKv, Seq<Buf>),
    after: (LayerKv, Seq<Buf>),
) -> bool {
    if shares || before.0.statics is Some {
        after == before
    } else {
        let n = before.1.len();
        &&& after.0.statics matches Some(p) && p.k.id == n && p.v.id == n + 1
        &&& after.1.len() == n + 2
    }
}

/// Attention in two runs: both fail for one reason, or they give the same in the
/// first `r` rows and keep the same in the rows before `p + r`.
pub open spec fn attention_alike<V>(
    m: Meaning<V>,
    l: DecoderLayer,
    mode: ModeVal,
    p: int,
    r: int,
    len: int,
    before: (LayerKv, Seq<Buf>, Bufs, Bufs),
    a: Result<AttnOut, Stop>,
    b: Result<AttnOut, Stop>,
) -> bool {
    match (a, b) {
        (Ok(x), Ok(y)) => {
            &&& agree(m, x.out, y.out, r)
            &&& m.len(x.out.term) == len
            &&& x.kv == y.kv && x.buffers == y.buffers
            &&& grown(l.self_attn.is_kv_shared, (before.0, before.1), (x.kv, x.buffers))
            &&& !l.self_attn.is_kv_shared ==> kept_alike(m, x.kv, p + r, x.bufs, y.bufs)
            &&& shared_alike(m, x.shared, y.shared, p + r)
            &&& only_own(l, x.kv, before.2, x.bufs)
            &&& only_own(l, x.kv, before.3, y.bufs)
        },
        (Err(d), Err(e)) => d.error == e.error,
        _ => false,
    }
}

/// Only the layer's own buffers have changed.
pub open spec fn only_own(l: DecoderLayer, kv: LayerKv, before: Bufs, after: Bufs) -> bool {
    forall|id: int|
        l.self_attn.is_kv_shared || !uses(kv, id) ==> #[trigger] after[id] == before[id]
}

/// A layer's buffers, as the next pass finds them: those that it has, or two of
/// zeros.
proof fn lemma_ready<V>(
    m: Meaning<V>,
    at: Attention,
    mode: ModeVal,
    p: int,
    kv: LayerKv,
    buffers: Seq<Buf>,
    dtype: DType,
    a: Bufs,
    b: Bufs,
)
    requires
        stands_at(mode, p, a),
        stands_at(mode, p, b),
        own_buffers(seq![kv], mode, buffers.len() as int),
        kv.statics is None ==> buffers.len() + 2 <= usize::MAX,
        kept_alike(m, kv, p, a, b),
    ensures
        ({
            let pair = at.static_pair(kv, buffers, ctx_of(mode).max_seq, dtype);
            let after = LayerKv { cache: kv.cache, statics: Some(pair) };
            let (c, d) = (
                Attention::static_ready(kv, a, pair),
                Attention::static_ready(kv, b, pair),
            );
            &&& pair.k.id != pair.v.id
            &&& forall|id: int| uses(after, id) ==> !#[trigger] of_mode(mode, id)
            &&& kept_alike(m, after, p, c, d)
            &&& stands_at(mode, p, c) && stands_at(mode, p, d)
            &&& forall|id: int| !uses(after, id) ==> #[trigger] c[id] == a[id]
            &&& forall|id: int| !uses(after, id) ==> #[trigger] d[id] == b[id]
            &&& grown(
                false,
                (kv, buffers),
                (after, Attention::static_buffers(kv, buffers, pair)),
            )
        }),
{
    let pair = at.static_pair(kv, buffers, ctx_of(mode).max_seq, dtype);
    let after = LayerKv { cache: kv.cache, statics: Some(pair) };
    let (c, d) = (Attention::static_ready(kv, a, pair), Attention::static_ready(kv, b, pair));
    assert(seq![kv][0] == kv);
    if kv.statics is Some {
        assert(after == kv);
        assert forall|id: int| uses(after, id) implies !#[trigger] of_mode(mode, id) by {
            assert(uses(seq![kv][0], id));
        }
    } else {
        assert forall|id: int| uses(after, id) implies !#[trigger] of_mode(mode, id) by {}
    }
    lemma_stands_frame(mode, p, a, c);
    lemma_stands_frame(mode, p, b, d);
}

/// Rows that were written from a counted position on.
pub(crate) proof fn lemma_rows_written<V>(m: Meaning<V>, c: Term, x: Term, p: Term, j: int)
    requires
        counted(p) is Some,
    ensures
        ({
            let t = Term::Tri(Op::KvRowsAt, Box::new(c), Box::new(x), Box::new(p));
            let at = counted(p)->0;
            &&& m.at(t, j) == (if at <= j < at + m.len(x) {
                m.at(x, j - at)
            } else {
                m.at(c, j)
            })
            &&& m.len(t) == m.len(c)
        }),
{
}

/// A step writes its row, and rows that were alike stay so.
proof fn lemma_row_alike<V>(
    m: Meaning<V>,
    pair: KvBufs,
    p: int,
    pos: (Term, Term),
    k: (Val, Val),
    v: (Val, Val),
    before: (Bufs, Bufs),
    after: (Bufs, Bufs),
)
    requires
        pair_alike(
            m,
            (held(before.0, pair.k), held(before.0, pair.v)),
            (held(before.1, pair.k), held(before.1, pair.v)),
            p,
        ),
        counted(pos.0) == Some(p) && counted(pos.1) == Some(p),
        agree(m, k.0, k.1, 1) && agree(m, v.0, v.1, 1),
        ({
            let (ki, vi) = (pair.k.id as int, pair.v.id as int);
            &&& after.0[ki] == tri_term(Op::KvRow, before.0[ki], k.0.term, pos.0)
            &&& after.1[ki] == tri_term(Op::KvRow, before.1[ki], k.1.term, pos.1)
            &&& after.0[vi] == tri_term(Op::KvRow, before.0[vi], v.0.term, pos.0)
            &&& after.1[vi] == tri_term(Op::KvRow, before.1[vi], v.1.term, pos.1)
        }),
    ensures
        pair_alike(
            m,
            (held(after.0, pair.k), held(after.0, pair.v)),
            (held(after.1, pair.k), held(after.1, pair.v)),
            p + 1,
        ),
{
    let (ki, vi) = (pair.k.id as int, pair.v.id as int);
    assert(m.same(k.0, 0, k.1, 0) && m.same(v.0, 0, v.1, 0));
    assert forall|j: int| 0 <= j < p + 1 implies #[trigger] m.at(after.0[ki], j) == m.at(
        after.1[ki],
        j,
    ) by {
        lemma_row_written(m, before.0[ki], k.0.term, pos.0, j);
        lemma_row_written(m, before.1[ki], k.1.term, pos.1, j);
        if j < p {
            assert(m.at(held(before.0, pair.k).term, j) == m.at(held(before.1, pair.k).term, j));
        }
    }
    assert forall|j: int| 0 <= j < p + 1 implies #[trigger] m.at(after.0[vi], j) == m.at(
        after.1[vi],
        j,
    ) by {
        lemma_row_written(m, before.0[vi], v.0.term, pos.0, j);
        lemma_row_written(m, before.1[vi], v.1.term, pos.1, j);
        if j < p {
            assert(m.at(held(before.0, pair.v).term, j) == m.at(held(before.1, pair.v).term, j));
        }
    }
    lemma_row_written(m, before.0[vi], v.0.term, pos.0, 0);
    lemma_row_written(m, before.1[vi], v.1.term, pos.1, 0);
}

/// A chunk writes its rows, and rows that were alike stay so.
proof fn lemma_rows_alike<V>(
    m: Meaning<V>,
    pair: KvBufs,
    p: int,
    r: int,
    pos: (Term, Term),
    k: (Val, Val),
    v: (Val, Val),
    before: (Bufs, Bufs),
    after: (Bufs, Bufs),
)
    requires
        pair_alike(
            m,
            (held(before.0, pair.k), held(before.0, pair.v)),
            (held(before.1, pair.k), held(before.1, pair.v)),
            p,
        ),
        counted(pos.0) == Some(p) && counted(pos.1) == Some(p),
        agree(m, k.0, k.1, r) && agree(m, v.0, v.1, r),
        r <= m.len(k.0.term) && r <= m.len(v.0.term),
        ({
            let (ki, vi) = (pair.k.id as int, pair.v.id as int);
            &&& after.0[ki] == tri_term(Op::KvRowsAt, before.0[ki], k.0.term, pos.0)
            &&& after.1[ki] == tri_term(Op::KvRowsAt, before.1[ki], k.1.term, pos.1)
            &&& after.0[vi] == tri_term(Op::KvRowsAt, before.0[vi], v.0.term, pos.0)
            &&& after.1[vi] == tri_term(Op::KvRowsAt, before.1[vi], v.1.term, pos.1)
        }),
    ensures
        pair_alike(
            m,
            (held(after.0, pair.k), held(after.0, pair.v)),
            (held(after.1, pair.k), held(after.1, pair.v)),
            p + r,
        ),
{
    let (ki, vi) = (pair.k.id as int, pair.v.id as int);
    assert forall|j: int| 0 <= j < p + r implies #[trigger] m.at(after.0[ki], j) == m.at(
        after.1[ki],
        j,
    ) by {
        lemma_rows_written(m, before.0[ki], k.0.term, pos.0, j);
        lemma_rows_written(m, before.1[ki], k.1.term, pos.1, j);
        if j < p {
            assert(m.at(held(before.0, pair.k).term, j) == m.at(held(before.1, pair.k).term, j));
        } else {
            assert(m.same(k.0, j - p, k.1, j - p));
        }
    }
    assert forall|j: int| 0 <= j < p + r implies #[trigger] m.at(after.0[vi], j) == m.at(
        after.1[vi],
        j,
    ) by {
        lemma_rows_written(m, before.0[vi], v.0.term, pos.0, j);
        lemma_rows_written(m, before.1[vi], v.1.term, pos.1, j);
        if j < p {
            assert(m.at(held(before.0, pair.v).term, j) == m.at(held(before.1, pair.v).term, j));
        } else {
            assert(m.same(v.0, j - p, v.1, j - p));
        }
    }
    lemma_rows_written(m, before.0[vi], v.0.term, pos.0, 0);
    lemma_rows_written(m, before.1[vi], v.1.term, pos.1, 0);
}

/// The rows that are kept, and what is shared of them, once they are alike.
proof fn lemma_shared_with<V>(
    m: Meaning<V>,
    at: Attention,
    shared: (Shared, Shared),
    a: (Val, Val),
    b: (Val, Val),
    n: int,
)
    requires
        shared_alike(m, shared.0, shared.1, n),
        pair_alike(m, a, b, n),
    ensures
        shared_alike(
            m,
            shared.0.with(at.is_sliding, a.0, a.1),
            shared.1.with(at.is_sliding, b.0, b.1),
            n,
        ),
{
}

/// A step's attention.
pub(crate) proof fn lemma_step_alike<V>(
    m: Meaning<V>,
    l: DecoderLayer,
    device: Device,
    ctx: StaticCtx,
    p: int,
    x: (Val, Val),
    kv: LayerKv,
    buffers: Seq<Buf>,
    a: Bufs,
    b: Bufs,
    shared: (Shared, Shared),
)
    requires
        m.masks(),
        stands_at(ModeVal::Step(ctx), p, a),
        stands_at(ModeVal::Step(ctx), p, b),
        own_buffers(seq![kv], ModeVal::Step(ctx), buffers.len() as int),
        kv.statics is None ==> buffers.len() + 2 <= usize::MAX,
        !l.self_attn.is_kv_shared ==> kept_alike(m, kv, p, a, b),
        shared_alike(m, shared.0, shared.1, p + 1),
        agree(m, x.0, x.1, 1),
    ensures
        attention_alike(
            m,
            l,
            ModeVal::Step(ctx),
            p,
            1,
            m.len(x.0.term),
            (kv, buffers, a, b),
            l.self_attn.step_pass(device, x.0, ctx, kv, buffers, a, shared.0),
            l.self_attn.step_pass(device, x.1, ctx, kv, buffers, b, shared.1),
        ),
{
    let f = l.self_attn;
    let mode = ModeVal::Step(ctx);
    let (ra, rb) = (
        f.step_pass(device, x.0, ctx, kv, buffers, a, shared.0),
        f.step_pass(device, x.1, ctx, kv, buffers, b, shared.1),
    );
    if x.0.shape.rank == 3 {
        let row = Op::Reshape(d2(f.num_kv_heads, f.head_dim));
        let (pa, pb) = (held(a, ctx.pos), held(b, ctx.pos));
        lemma_agree_heads(m, f, x.0, x.1, 1, 1);
        lemma_agree_turn(m, f.rotary(), (f.query(x.0, 1, 1), f.query(x.1, 1, 1)), (pa, pb), 1);
        lemma_agree_turn(m, f.rotary(), (f.key(x.0, 1, 1), f.key(x.1, 1, 1)), (pa, pb), 1);
        let q = (
            f.rotary().at_rows(f.query(x.0, 1, 1), pa),
            f.rotary().at_rows(f.query(x.1, 1, 1), pb),
        );
        let t = (
            f.rotary().at_rows(f.key(x.0, 1, 1), pa),
            f.rotary().at_rows(f.key(x.1, 1, 1), pb),
        );
        lemma_agree_un(m, row, t.0, t.1, 1);
        lemma_agree_un(m, row, f.value(x.0, 1, 1), f.value(x.1, 1, 1), 1);
        let k = (un(row, t.0), un(row, t.1));
        let v = (un(row, f.value(x.0, 1, 1)), un(row, f.value(x.1, 1, 1)));
        let mask = if f.is_sliding { ctx.mask_sliding } else { ctx.mask_global };
        let w = window_of(f, ctx);
        assert(of_mode(mode, mask.id as int) && of_mode(mode, ctx.pos.id as int));
        if f.is_kv_shared {
            if let (Some(s), Some(u)) = (shared.0.slot(f.is_sliding), shared.1.slot(f.is_sliding)) {
                lemma_step_mixed_alike(
                    m,
                    f,
                    q,
                    (s.0, u.0),
                    (s.1, u.1),
                    (held(a, mask), held(b, mask)),
                    ctx.max_seq,
                    p,
                    w,
                );
            }
        } else {
            lemma_ready(m, f, mode, p, kv, buffers, x.0.dtype, a, b);
            let pair = f.static_pair(kv, buffers, ctx.max_seq, x.0.dtype);
            let (c, d) = (
                Attention::static_ready(kv, a, pair),
                Attention::static_ready(kv, b, pair),
            );
            let after = LayerKv { cache: kv.cache, statics: Some(pair) };
            if let (Ok(c2), Ok(d2)) = (
                kv_write_effect(device, c, pair.k, pair.v, k.0, v.0, ctx.pos),
                kv_write_effect(device, d, pair.k, pair.v, k.1, v.1, ctx.pos),
            ) {
                lemma_row_alike(
                    m,
                    pair,
                    p,
                    (c[ctx.pos.id as int], d[ctx.pos.id as int]),
                    k,
                    v,
                    (c, d),
                    (c2, d2),
                );
                assert(!uses(after, mask.id as int));
                assert(c2[mask.id as int] == a[mask.id as int]);
                assert(d2[mask.id as int] == b[mask.id as int]);
                lemma_step_mixed_alike(
                    m,
                    f,
                    q,
                    (held(c2, pair.k), held(d2, pair.k)),
                    (held(c2, pair.v), held(d2, pair.v)),
                    (held(c2, mask), held(d2, mask)),
                    ctx.max_seq,
                    p,
                    w,
                );
                lemma_shared_with(
                    m,
                    f,
                    shared,
                    (held(c2, pair.k), held(c2, pair.v)),
                    (held(d2, pair.k), held(d2, pair.v)),
                    p + 1,
                );
                assert(ra is Ok && rb is Ok);
                assert(only_own(l, after, a, c2));
                assert(only_own(l, after, b, d2));
            }
        }
    }
}

/// A chunk's attention at a position on the device.
proof fn lemma_chunk_alike<V>(
    m: Meaning<V>,
    l: DecoderLayer,
    device: Device,
    ctx: StaticCtx,
    p: int,
    r: int,
    x: (Val, Val),
    kv: LayerKv,
    buffers: Seq<Buf>,
    a: Bufs,
    b: Bufs,
    shared: (Shared, Shared),
)
    requires
        m.masks(),
        0 <= r <= m.len(x.0.term),
        stands_at(ModeVal::ChunkDev(ctx), p, a),
        stands_at(ModeVal::ChunkDev(ctx), p, b),
        own_buffers(seq![kv], ModeVal::ChunkDev(ctx), buffers.len() as int),
        kv.statics is None ==> buffers.len() + 2 <= usize::MAX,
        !l.self_attn.is_kv_shared ==> kept_alike(m, kv, p, a, b),
        shared_alike(m, shared.0, shared.1, p + r),
        agree(m, x.0, x.1, r),
    ensures
        attention_alike(
            m,
            l,
            ModeVal::ChunkDev(ctx),
            p,
            r,
            m.len(x.0.term),
            (kv, buffers, a, b),
            l.self_attn.chunk_dev_pass(device, x.0, ctx, kv, buffers, a, shared.0),
            l.self_attn.chunk_dev_pass(device, x.1, ctx, kv, buffers, b, shared.1),
        ),
{
    let f = l.self_attn;
    let mode = ModeVal::ChunkDev(ctx);
    let c = ctx.chunk->0;
    let len = x.0.shape.d1;
    let (ra, rb) = (
        f.chunk_dev_pass(device, x.0, ctx, kv, buffers, a, shared.0),
        f.chunk_dev_pass(device, x.1, ctx, kv, buffers, b, shared.1),
    );
    if x.0.shape.rank == 3 {
        let rows = Op::Reshape(d3(f.num_kv_heads, len, f.head_dim));
        let (pa, pb) = (held(a, c.rope_idx), held(b, c.rope_idx));
        lemma_agree_heads(m, f, x.0, x.1, len, r);
        lemma_agree_turn(m, f.rotary(), (f.query(x.0, 1, len), f.query(x.1, 1, len)), (pa, pb), r);
        lemma_agree_turn(m, f.rotary(), (f.key(x.0, 1, len), f.key(x.1, 1, len)), (pa, pb), r);
        let q = (
            f.rotary().at_rows(f.query(x.0, 1, len), pa),
            f.rotary().at_rows(f.query(x.1, 1, len), pb),
        );
        let t = (
            f.rotary().at_rows(f.key(x.0, 1, len), pa),
            f.rotary().at_rows(f.key(x.1, 1, len), pb),
        );
        lemma_agree_un(m, rows, t.0, t.1, r);
        lemma_agree_un(m, rows, f.value(x.0, 1, len), f.value(x.1, 1, len), r);
        let k = (un(rows, t.0), un(rows, t.1));
        let v = (un(rows, f.value(x.0, 1, len)), un(rows, f.value(x.1, 1, len)));
        let mask = if f.is_sliding { c.mask_sliding } else { c.mask_global };
        let w = if f.is_sliding { Some(ctx.sliding_window) } else { None };
        assert(of_mode(mode, mask.id as int) && of_mode(mode, ctx.pos.id as int));
        if f.is_kv_shared {
            if let (Some(s), Some(u)) = (shared.0.slot(f.is_sliding), shared.1.slot(f.is_sliding)) {
                lemma_extent_mixed_alike(
                    m,
                    f,
                    q,
                    (s.0, u.0),
                    (s.1, u.1),
                    (held(a, mask), held(b, mask)),
                    len,
                    ctx.max_seq,
                    p,
                    w,
                    r,
                );
            }
        } else {
            lemma_ready(m, f, mode, p, kv, buffers, x.0.dtype, a, b);
            let pair = f.static_pair(kv, buffers, ctx.max_seq, x.0.dtype);
            let (c0, d0) = (
                Attention::static_ready(kv, a, pair),
                Attention::static_ready(kv, b, pair),
            );
            let after = LayerKv { cache: kv.cache, statics: Some(pair) };
            assert(!uses(after, ctx.pos.id as int));
            if let (Ok(c1), Ok(d1)) = (
                rows_at_effect(device, c0, pair.k, k.0, ctx.pos),
                rows_at_effect(device, d0, pair.k, k.1, ctx.pos),
            ) {
                if let (Ok(c2), Ok(d2)) = (
                    rows_at_effect(device, c1, pair.v, v.0, ctx.pos),
                    rows_at_effect(device, d1, pair.v, v.1, ctx.pos),
                ) {
                    lemma_rows_alike(
                        m,
                        pair,
                        p,
                        r,
                        (c0[ctx.pos.id as int], d0[ctx.pos.id as int]),
                        k,
                        v,
                        (c0, d0),
                        (c2, d2),
                    );
                    assert(!uses(after, mask.id as int));
                    assert(c2[mask.id as int] == a[mask.id as int]);
                    assert(d2[mask.id as int] == b[mask.id as int]);
                    lemma_extent_mixed_alike(
                        m,
                        f,
                        q,
                        (held(c2, pair.k), held(d2, pair.k)),
                        (held(c2, pair.v), held(d2, pair.v)),
                        (held(c2, mask), held(d2, mask)),
                        len,
                        ctx.max_seq,
                        p,
                        w,
                        r,
                    );
                    lemma_shared_with(
                        m,
                        f,
                        shared,
                        (held(c2, pair.k), held(c2, pair.v)),
                        (held(d2, pair.k), held(d2, pair.v)),
                        p + r,
                    );
                    assert(ra is Ok && rb is Ok);
                    assert(only_own(l, after, a, c2));
                    assert(only_own(l, after, b, d2));
                }
            }
        }
    }
}

/// The first half of a layer in two runs, as [`attention_alike`].
pub open spec fn halves_alike<V>(
    m: Meaning<V>,
    l: DecoderLayer,
    p: int,
    r: int,
    len: int,
    before: (LayerKv, Seq<Buf>, Bufs, Bufs),
    a: Result<HalfwayOut, Stop>,
    b: Result<HalfwayOut, Stop>,
) -> bool {
    match (a, b) {
        (Ok(x), Ok(y)) => {
            &&& values_alike(m, l, r, len, x, y)
            &&& grown(l.self_attn.is_kv_shared, (before.0, before.1), (x.kv, x.buffers))
            &&& !l.self_attn.is_kv_shared ==> kept_alike(m, x.kv, p + r, x.bufs, y.bufs)
            &&& shared_alike(m, x.shared, y.shared, p + r)
            &&& only_own(l, x.kv, before.2, x.bufs)
            &&& only_own(l, x.kv, before.3, y.bufs)
        },
        (Err(d), Err(e)) => d.error == e.error,
        _ => false,
    }
}

/// What the second half of a layer works on agrees in the first `r` rows.
pub open spec fn values_alike<V>(
    m: Meaning<V>,
    l: DecoderLayer,
    r: int,
    len: int,
    x: HalfwayOut,
    y: HalfwayOut,
) -> bool {
    &&& agree(m, x.residual, y.residual, r)
    &&& m.len(x.residual.term) == len
    &&& agree(m, x.mlp_out, y.mlp_out, r)
    &&& agree_opt(m, x.probs, y.probs, r)
    &&& l.host_routed() ==> x.probs is Some
    &&& x.kv == y.kv && x.buffers == y.buffers
}

/// A mode in which `r` rows can be told apart.
pub open spec fn suits(mode: ModeVal, r: int) -> bool {
    match mode {
        ModeVal::Step(_) => r == 1,
        ModeVal::ChunkDev(_) => 0 <= r,
        _ => false,
    }
}

pub(crate) proof fn lemma_agree_probs<V>(m: Meaning<V>, f: MoeBlock, a: Val, b: Val, r: int)
    requires
        agree(m, a, b, r),
    ensures
        agree(m, f.probs(a), f.probs(b), r),
{
    let flat = Op::Reshape(d2(sat_product(a.shape.d0, a.shape.d1), a.shape.d2));
    lemma_agree_un(m, flat, a, b, r);
    lemma_agree_router(m, f.router, MoeBlock::flat(a), MoeBlock::flat(b), r);
}

proof fn lemma_halfway_alike<V>(
    m: Meaning<V>,
    l: DecoderLayer,
    device: Device,
    mode: ModeVal,
    p: int,
    r: int,
    x: (Val, Val),
    kv: LayerKv,
    buffers: Seq<Buf>,
    a: Bufs,
    b: Bufs,
    shared: (Shared, Shared),
)
    requires
        m.masks(),
        suits(mode, r),
        r <= m.len(x.0.term),
        stands_at(mode, p, a),
        stands_at(mode, p, b),
        own_buffers(seq![kv], mode, buffers.len() as int),
        kv.statics is None ==> buffers.len() + 2 <= usize::MAX,
        !l.self_attn.is_kv_shared ==> kept_alike(m, kv, p, a, b),
        shared_alike(m, shared.0, shared.1, p + r),
        agree(m, x.0, x.1, r),
    ensures
        halves_alike(
            m,
            l,
            p,
            r,
            m.len(x.0.term),
            (kv, buffers, a, b),
            l.halfway(device, mode, x.0, kv, buffers, a, shared.0),
            l.halfway(device, mode, x.1, kv, buffers, b, shared.1),
        ),
{
    reveal(DecoderLayer::halfway);
    let n = l.input_layernorm;
    lemma_agree_norm(m, n, x.0, x.1, r);
    let normed = (n.apply(x.0), n.apply(x.1));
    match mode {
        ModeVal::Step(ctx) => {
            lemma_step_alike(m, l, device, ctx, p, normed, kv, buffers, a, b, shared);
        },
        ModeVal::ChunkDev(ctx) => {
            lemma_chunk_alike(m, l, device, ctx, p, r, normed, kv, buffers, a, b, shared);
        },
        _ => {},
    }
    if let (Ok(s), Ok(u)) = (
        l.attended(device, mode, normed.0, kv, buffers, a, shared.0),
        l.attended(device, mode, normed.1, kv, buffers, b, shared.1),
    ) {
        let n = l.post_attention_layernorm;
        lemma_agree_norm(m, n, s.out, u.out, r);
        let y = (n.apply(s.out), n.apply(u.out));
        let w = l.pre_feedforward_layernorm.weight;
        let eps = Scalar::F32(l.pre_feedforward_layernorm.eps);
        lemma_agree_residual(m, device, y, x, w, eps, r);
        lemma_agree_mlp(
            m,
            l.mlp,
            residual_norm(device, y.0, x.0, w, eps, false),
            residual_norm(device, y.1, x.1, w, eps, false),
            r,
        );
        if l.host_routed() {
            let z = (
                residual_sum(device, y.0, x.0, w, eps, false),
                residual_sum(device, y.1, x.1, w, eps, false),
            );
            lemma_agree_probs(m, l.moe->0, z.0, z.1, r);
        }
    }
}

/// How many of the first `n` layers have no static buffers yet.
pub open spec fn unmade(kvs: Seq<LayerKv>, n: int) -> int
    decreases n,
{
    if n <= 0 {
        0
    } else {
        unmade(kvs, n - 1) + (if kvs[n - 1].statics is None {
            1int
        } else {
            0
        })
    }
}

proof fn lemma_unmade(kvs: Seq<LayerKv>, i: int, kv: LayerKv, n: int)
    requires
        0 <= i < kvs.len(),
        0 <= n <= kvs.len(),
        kvs[i].statics is None,
        kv.statics is Some,
    ensures
        unmade(kvs.update(i, kv), n) == unmade(kvs, n) - (if i < n {
            1int
        } else {
            0
        }),
        0 <= unmade(kvs, n),
        i < n ==> 1 <= unmade(kvs, n),
    decreases n,
{
    if n > 0 {
        lemma_unmade(kvs, i, kv, n - 1);
    }
}

proof fn lemma_room(kvs: Seq<LayerKv>, i: int, n: int)
    requires
        0 <= i < kvs.len(),
        0 <= n <= kvs.len(),
    ensures
        0 <= unmade(kvs, n),
        i < n && kvs[i].statics is None ==> 1 <= unmade(kvs, n),
    decreases n,
{
    if n > 0 {
        lemma_room(kvs, i, n - 1);
    }
}

/// Layer `j` reads the keys and values of another.
pub open spec fn shares(model: TextModel, j: int) -> bool {
    model.layers[j].self_attn.is_kv_shared
}

/// The rows of layer `j` that are alike while layer `i` is next at position `p`.
pub open spec fn upto(i: int, j: int, p: int, r: int) -> int {
    if j < i {
        p + r
    } else {
        p
    }
}

/// Two runs whose next layer is `i`, at position `p`: their buffers hold the same
/// as far as the first `r` rows can see.
pub open spec fn settled<V>(
    m: Meaning<V>,
    model: TextModel,
    mode: ModeVal,
    i: int,
    p: int,
    r: int,
    kv: Seq<LayerKv>,
    buffers: Seq<Buf>,
    a: Bufs,
    b: Bufs,
) -> bool {
    &&& stands_at(mode, p, a) && stands_at(mode, p, b)
    &&& resting(m, model, mode, i, p, r, kv, buffers, a, b)
}

/// [`settled`] but for what the mode reads.
pub open spec fn resting<V>(
    m: Meaning<V>,
    model: TextModel,
    mode: ModeVal,
    i: int,
    p: int,
    r: int,
    kv: Seq<LayerKv>,
    buffers: Seq<Buf>,
    a: Bufs,
    b: Bufs,
) -> bool {
    &&& kv.len() == model.layers.len()
    &&& own_buffers(kv, mode, buffers.len() as int)
    &&& buffers.len() + 2 * unmade(kv, kv.len() as int) <= usize::MAX
    &&& forall|j: int|
        0 <= j < kv.len() && !shares(model, j) ==> kept_alike(
            m,
            #[trigger] kv[j],
            upto(i, j, p, r),
            a,
            b,
        )
}

/// Buffers of a layer stay alike where they are not touched.
proof fn lemma_kept_frame<V>(
    m: Meaning<V>,
    kv: LayerKv,
    n: int,
    a: (Bufs, Bufs),
    b: (Bufs, Bufs),
)
    requires
        kept_alike(m, kv, n, a.0, b.0),
        forall|id: int| #[trigger] uses(kv, id) ==> a.0[id] == a.1[id] && b.0[id] == b.1[id],
    ensures
        kept_alike(m, kv, n, a.1, b.1),
{
    if let Some(p) = kv.statics {
        assert(uses(kv, p.k.id as int) && uses(kv, p.v.id as int));
    }
}

/// The first half of layer `i` leaves two runs settled for the next layer.
proof fn lemma_layer_settled<V>(
    m: Meaning<V>,
    model: TextModel,
    mode: ModeVal,
    i: int,
    p: int,
    r: int,
    kv: Seq<LayerKv>,
    buffers: Seq<Buf>,
    before: (Bufs, Bufs),
    after: (LayerKv, Seq<Buf>, Bufs, Bufs),
)
    requires
        0 <= i < model.layers.len(),
        settled(m, model, mode, i, p, r, kv, buffers, before.0, before.1),
        grown(shares(model, i), (kv[i], buffers), (after.0, after.1)),
        !shares(model, i) ==> kept_alike(m, after.0, p + r, after.2, after.3),
        only_own(model.layers[i], after.0, before.0, after.2),
        only_own(model.layers[i], after.0, before.1, after.3),
    ensures
        settled(
            m,
            model,
            mode,
            i + 1,
            p,
            r,
            kv.update(i, after.0),
            after.1,
            after.2,
            after.3,
        ),
{
    let next = kv.update(i, after.0);
    let n = buffers.len() as int;
    let made = !shares(model, i) && kv[i].statics is None;
    if made {
        lemma_unmade(kv, i, after.0, kv.len() as int);
    } else {
        assert(next =~= kv);
    }
    assert forall|id: int| #[trigger] of_mode(mode, id) implies after.2[id] == before.0[id]
        && after.3[id] == before.1[id] by {
        if !made {
            assert(uses(kv[i], id) ==> !of_mode(mode, id));
        }
        assert(shares(model, i) || !uses(after.0, id));
        assert(after.2[id] == before.0[id]);
        assert(after.3[id] == before.1[id]);
    }
    lemma_stands_frame(mode, p, before.0, after.2);
    lemma_stands_frame(mode, p, before.1, after.3);
    assert(own_buffers(next, mode, after.1.len() as int)) by {
        assert forall|j: int, id: int| 0 <= j < next.len() && #[trigger] uses(next[j], id) implies id
            < after.1.len() && !of_mode(mode, id) by {
            if j != i || !made {
                assert(uses(kv[j], id));
            }
        }
        assert forall|j: int, k: int, id: int|
            0 <= j < next.len() && 0 <= k < next.len() && j != k && #[trigger] uses(
                next[j],
                id,
            ) implies !(#[trigger] uses(next[k], id)) by {
            if j != i || !made {
                assert(uses(kv[j], id));
            }
            if k != i || !made {
                assert(uses(next[k], id) ==> uses(kv[k], id));
            }
        }
    }
    assert forall|j: int| 0 <= j < next.len() && !shares(model, j) implies kept_alike(
        m,
        #[trigger] next[j],
        upto(i + 1, j, p, r),
        after.2,
        after.3,
    ) by {
        if j != i {
            assert(kept_alike(m, kv[j], upto(i, j, p, r), before.0, before.1));
            assert forall|id: int| #[trigger] uses(next[j], id) implies before.0[id] == after.2[id]
                && before.1[id] == after.3[id] by {
                assert(uses(kv[j], id));
                if made {
                    assert(id < n);
                } else {
                    assert(uses(kv[i], id) ==> !uses(kv[j], id));
                }
                assert(shares(model, i) || !uses(after.0, id));
                assert(after.2[id] == before.0[id]);
                assert(after.3[id] == before.1[id]);
            }
            lemma_kept_frame(
                m,
                next[j],
                upto(i, j, p, r),
                (before.0, after.2),
                (before.1, after.3),
            );
        }
    }
}

/// Where two runs through the layers end.
pub open spec fn rans_alike<V>(
    m: Meaning<V>,
    model: TextModel,
    mode: ModeVal,
    p: int,
    r: int,
    a: Ran,
    b: Ran,
) -> bool {
    match (a, b) {
        (Ran::Failed(x), Ran::Failed(y)) => x.error == y.error,
        (Ran::Paused(j, h, kv), Ran::Paused(k, g, kv2)) => {
            &&& j == k && 0 <= j < model.layers.len() && model.layers[j].host_routed()
            &&& kv == kv2
            &&& values_alike(m, model.layers[j], r, m.len(h.residual.term), h, g)
            &&& r <= m.len(h.residual.term)
            &&& settled(m, model, mode, j + 1, p, r, kv, h.buffers, h.bufs, g.bufs)
            &&& shared_alike(m, h.shared, g.shared, p + r)
        },
        (Ran::Through(f), Ran::Through(g)) => {
            flows_alike(m, model, mode, model.layers.len() as int, p, r, f, g)
        },
        _ => false,
    }
}

/// Two values on their way through the layers, alike in the first `r` rows.
pub open spec fn flows_alike<V>(
    m: Meaning<V>,
    model: TextModel,
    mode: ModeVal,
    i: int,
    p: int,
    r: int,
    f: Flow,
    g: Flow,
) -> bool {
    &&& agree(m, f.x, g.x, r)
    &&& r <= m.len(f.x.term)
    &&& f.kv == g.kv && f.buffers == g.buffers
    &&& settled(m, model, mode, i, p, r, f.kv, f.buffers, f.bufs, g.bufs)
    &&& shared_alike(m, f.shared, g.shared, p + r)
}

pub(crate) proof fn lemma_slices_agree<V>(
    m: Meaning<V>,
    plis: (Option<Val>, Option<Val>),
    i: int,
    r: int,
)
    requires
        agree_opt(m, plis.0, plis.1, r),
    ensures
        agree_opt(m, slice_of(plis.0, i), slice_of(plis.1, i), r),
{
    if let (Some(a), Some(b)) = plis {
        lemma_agree_un(m, Op::Select { dim: 2, index: i as usize }, a, b, r);
    }
}

/// The layers from `i` on, in two runs.
#[verifier::rlimit(30)]
pub(crate) proof fn lemma_runs_alike<V>(
    m: Meaning<V>,
    model: TextModel,
    device: Device,
    mode: ModeVal,
    plis: (Option<Val>, Option<Val>),
    i: int,
    p: int,
    r: int,
    f: Flow,
    g: Flow,
)
    requires
        m.masks(),
        suits(mode, r),
        0 <= i <= model.layers.len(),
        agree_opt(m, plis.0, plis.1, r),
        flows_alike(m, model, mode, i, p, r, f, g),
    ensures
        rans_alike(
            m,
            model,
            mode,
            p,
            r,
            model.run(device, mode, plis.0, i, f),
            model.run(device, mode, plis.1, i, g),
        ),
    decreases model.layers.len() - i,
{
    if i < model.layers.len() {
        let l = model.layers[i];
        let kv = f.kv[i];
        assert(upto(i, i, p, r) == p);
        assert(own_buffers(seq![kv], mode, f.buffers.len() as int)) by {
            assert forall|j: int, id: int|
                0 <= j < seq![kv].len() && #[trigger] uses(seq![kv][j], id) implies id
                < f.buffers.len() && !of_mode(mode, id) by {
                assert(uses(f.kv[i], id));
            }
        }
        lemma_room(f.kv, i, f.kv.len() as int);
        lemma_halfway_alike(
            m,
            l,
            device,
            mode,
            p,
            r,
            (f.x, g.x),
            kv,
            f.buffers,
            f.bufs,
            g.bufs,
            (f.shared, g.shared),
        );
        let (a, b) = (
            l.halfway(device, mode, f.x, kv, f.buffers, f.bufs, f.shared),
            l.halfway(device, mode, g.x, kv, g.buffers, g.bufs, g.shared),
        );
        if let (Ok(h), Ok(k)) = (a, b) {
            lemma_layer_settled(
                m,
                model,
                mode,
                i,
                p,
                r,
                f.kv,
                f.buffers,
                (f.bufs, g.bufs),
                (h.kv, h.buffers, h.bufs, k.bufs),
            );
            if !l.host_routed() {
                lemma_slices_agree(m, plis, i, r);
                lemma_agree_finished(
                    m,
                    l,
                    device,
                    (h.residual, k.residual),
                    (h.mlp_out, k.mlp_out),
                    (h.probs, k.probs),
                    (Seq::empty(), Seq::empty()),
                    (slice_of(plis.0, i), slice_of(plis.1, i)),
                    r,
                );
                let done = (
                    l.finished(
                        device,
                        h.residual,
                        h.mlp_out,
                        h.probs,
                        Seq::empty(),
                        slice_of(plis.0, i),
                    ),
                    l.finished(
                        device,
                        k.residual,
                        k.mlp_out,
                        k.probs,
                        Seq::empty(),
                        slice_of(plis.1, i),
                    ),
                );
                if let (Ok(y), Ok(z)) = done {
                    let kvs = f.kv.update(i, h.kv);
                    lemma_runs_alike(
                        m,
                        model,
                        device,
                        mode,
                        plis,
                        i + 1,
                        p,
                        r,
                        Flow {
                            x: y,
                            bufs: h.bufs,
                            buffers: h.buffers,
                            kv: kvs,
                            shared: h.shared,
                        },
                        Flow {
                            x: z,
                            bufs: k.bufs,
                            buffers: k.buffers,
                            kv: kvs,
                            shared: k.shared,
                        },
                    );
                }
            }
        }
    }
}

/// Norm, head and soft cap take each row by itself.
pub proof fn law_logits_row_by_row<V>(m: Meaning<V>, model: TextModel, a: Val, b: Val, r: int)
    requires
        agree(m, a, b, r),
    ensures
        agree(m, model.logits(a), model.logits(b), r),
{
    lemma_agree_norm(m, model.norm, a, b, r);
    let (na, nb) = (model.norm.apply(a), model.norm.apply(b));
    lemma_agree_proj(m, model.lm_head, na, nb, r);
    if let Some(sc) = model.final_logit_softcapping {
        let (ha, hb) = (model.lm_head.apply(na), model.lm_head.apply(nb));
        let div = Op::DivScalar(Scalar::F64(sc));
        lemma_agree_un(m, div, ha, hb, r);
        lemma_agree_un(m, Op::Tanh, un(div, ha), un(div, hb), r);
        lemma_agree_un(
            m,
            Op::MulScalar(Scalar::F64(sc)),
            un(Op::Tanh, un(div, ha)),
            un(Op::Tanh, un(div, hb)),
            r,
        );
    }
}

/// Embeddings and per-layer inputs of token numbers that agree.
pub(crate) proof fn lemma_entered_alike<V>(m: Meaning<V>, model: TextModel, a: Val, b: Val, r: int)
    requires
        agree(m, a, b, r),
    ensures
        agree(m, model.embedded(a), model.embedded(b), r),
        m.len(model.embedded(a).term) == m.len(a.term),
        match (
            model.per_layer_input(a, model.embedded(a)),
            model.per_layer_input(b, model.embedded(b)),
        ) {
            (Ok(x), Ok(y)) => agree_opt(m, x, y, r),
            (Err(d), Err(e)) => d == e,
            _ => false,
        },
{
    let to = Op::ToDType(model.dtype);
    let rows = Op::Embedding(model.embed);
    let scale = Op::MulScalar(Scalar::Sqrt(model.hidden_size));
    lemma_agree_un(m, rows, a, b, r);
    lemma_agree_un(m, to, un(rows, a), un(rows, b), r);
    lemma_agree_un(m, scale, un(to, un(rows, a)), un(to, un(rows, b)), r);
    if let Some(e) = model.per_layer {
        if a.shape.rank == 2 {
            let dim = model.hidden_size_per_layer_input;
            let split = Op::Reshape(d4(a.shape.d0, a.shape.d1, model.num_hidden_layers, dim));
            let rows = Op::Embedding(e.embed);
            let scale = Op::MulScalar(Scalar::Sqrt(dim));
            lemma_agree_un(m, rows, a, b, r);
            lemma_agree_un(m, to, un(rows, a), un(rows, b), r);
            let (la, lb) = (un(to, un(rows, a)), un(to, un(rows, b)));
            lemma_agree_un(m, scale, la, lb, r);
            lemma_agree_un(m, split, un(scale, la), un(scale, lb), r);
            let looked = (un(split, un(scale, la)), un(split, un(scale, lb)));
            let (xa, xb) = (model.embedded(a), model.embedded(b));
            lemma_agree_proj(m, e.proj, xa, xb, r);
            let down = Op::MulScalar(Scalar::RecipSqrt(model.hidden_size));
            let (pa, pb) = (e.proj.apply(xa), e.proj.apply(xb));
            lemma_agree_un(m, down, pa, pb, r);
            lemma_agree_un(m, split, un(down, pa), un(down, pb), r);
            let (sa, sb) = (un(split, un(down, pa)), un(split, un(down, pb)));
            lemma_agree_norm(m, e.norm, sa, sb, r);
            let projected = (e.norm.apply(sa), e.norm.apply(sb));
            lemma_agree_bin(m, Op::Add, (projected.0, looked.0), (projected.1, looked.1), r);
            lemma_agree_un(
                m,
                Op::MulScalar(Scalar::RecipSqrt(2)),
                bin(Op::Add, projected.0, looked.0),
                bin(Op::Add, projected.1, looked.1),
                r,
            );
        }
    }
}

/// Between two steps: two runs whose next position is `n` hold the same as far as
/// it can see.
pub open spec fn rests_alike<V>(
    m: Meaning<V>,
    model: TextModel,
    mode: ModeVal,
    n: int,
    kv: Seq<LayerKv>,
    buffers: Seq<Buf>,
    a: Bufs,
    b: Bufs,
) -> bool {
    let pos = ctx_of(mode).pos.id as int;
    &&& counted(a[pos]) == Some(n)
    &&& counted(b[pos]) == Some(n)
    &&& resting(m, model, mode, 0, n, 0, kv, buffers, a, b)
}

/// Contents that differ only in what the mode writes rest alike as before.
pub(crate) proof fn lemma_resting_frame<V>(
    m: Meaning<V>,
    model: TextModel,
    mode: ModeVal,
    i: int,
    p: int,
    r: int,
    kv: Seq<LayerKv>,
    buffers: Seq<Buf>,
    a: (Bufs, Bufs),
    b: (Bufs, Bufs),
)
    requires
        resting(m, model, mode, i, p, r, kv, buffers, a.0, b.0),
        forall|id: int| !of_mode(mode, id) ==> #[trigger] a.1[id] == a.0[id],
        forall|id: int| !of_mode(mode, id) ==> #[trigger] b.1[id] == b.0[id],
    ensures
        resting(m, model, mode, i, p, r, kv, buffers, a.1, b.1),
{
    assert forall|j: int| 0 <= j < kv.len() && !shares(model, j) implies kept_alike(
        m,
        #[trigger] kv[j],
        upto(i, j, p, r),
        a.1,
        b.1,
    ) by {
        assert forall|id: int| #[trigger] uses(kv[j], id) implies a.0[id] == a.1[id] && b.0[id]
            == b.1[id] by {
            assert(!of_mode(mode, id));
            assert(a.1[id] == a.0[id]);
            assert(b.1[id] == b.0[id]);
        }
        lemma_kept_frame(m, kv[j], upto(i, j, p, r), a, b);
    }
}

/// Two steps at position `n` that end, wait or fail alike: they give the same
/// logits and leave what the next step sees alike, wait at the same layer on the
/// same values, or fail for the same reason.
pub open spec fn ends_alike<V>(
    m: Meaning<V>,
    model: TextModel,
    ctx: StaticCtx,
    n: int,
    a: Outcome,
    b: Outcome,
) -> bool {
    let mode = ModeVal::Step(ctx);
    match (a, b) {
        (Outcome::Failed(x), Outcome::Failed(y)) => x.error == y.error,
        (
            Outcome::Paused(task, mode1, plis, layer, h, kv),
            Outcome::Paused(task2, mode2, plis2, layer2, h2, kv2),
        ) => {
            &&& task == TaskVal::Step(ctx) && task2 == task
            &&& mode1 == mode && mode2 == mode
            &&& agree_opt(m, plis, plis2, 1)
            &&& rans_alike(
                m,
                model,
                mode,
                n,
                1,
                Ran::Paused(layer, h, kv),
                Ran::Paused(layer2, h2, kv2),
            )
        },
        (
            Outcome::Done { hidden, logits, bufs, buffers, kv },
            Outcome::Done {
                hidden: hidden2,
                logits: logits2,
                bufs: bufs2,
                buffers: buffers2,
                kv: kv2,
            },
        ) => {
            &&& m.same(hidden, 0, hidden2, 0)
            &&& m.same(logits, 0, logits2, 0)
            &&& kv == kv2 && buffers == buffers2
            &&& n + 1 < 0x1_0000_0000 ==> rests_alike(
                m,
                model,
                mode,
                n + 1,
                kv,
                buffers,
                bufs,
                bufs2,
            )
        },
        _ => false,
    }
}

/// The rest of a step, in two runs.
proof fn lemma_steps_alike<V>(
    m: Meaning<V>,
    model: TextModel,
    device: Device,
    ctx: StaticCtx,
    plis: (Option<Val>, Option<Val>),
    i: int,
    n: int,
    f: Flow,
    g: Flow,
)
    requires
        m.masks(),
        mode_apart(ctx),
        0 <= n,
        0 <= i <= model.layers.len(),
        agree_opt(m, plis.0, plis.1, 1),
        flows_alike(m, model, ModeVal::Step(ctx), i, n, 1, f, g),
    ensures
        ends_alike(
            m,
            model,
            ctx,
            n,
            model.drive(device, TaskVal::Step(ctx), ModeVal::Step(ctx), plis.0, i, f),
            model.drive(device, TaskVal::Step(ctx), ModeVal::Step(ctx), plis.1, i, g),
        ),
{
    reveal(TextModel::next);
    let mode = ModeVal::Step(ctx);
    lemma_runs_alike(m, model, device, mode, plis, i, n, 1, f, g);
    if let (Ran::Through(x), Ran::Through(y)) = (
        model.run(device, mode, plis.0, i, f),
        model.run(device, mode, plis.1, i, g),
    ) {
        law_logits_row_by_row(m, model, x.x, y.x, 1);
        assert(m.same(x.x, 0, y.x, 0));
        assert(m.same(model.logits(x.x), 0, model.logits(y.x), 0));
        let pos = ctx.pos.id as int;
        if let (Ok(c), Ok(d)) = (
            advance_effect(device, x.bufs, ctx.pos, 1),
            advance_effect(device, y.bufs, ctx.pos, 1),
        ) {
            let len = model.layers.len() as int;
            assert(of_mode(mode, pos));
            assert forall|id: int| !of_mode(mode, id) implies #[trigger] c[id] == x.bufs[id] by {}
            assert forall|id: int| !of_mode(mode, id) implies #[trigger] d[id] == y.bufs[id] by {}
            lemma_resting_frame(
                m,
                model,
                mode,
                len,
                n,
                1,
                x.kv,
                x.buffers,
                (x.bufs, c),
                (y.bufs, d),
            );
            assert forall|j: int| 0 <= j < x.kv.len() && !shares(model, j) implies kept_alike(
                m,
                #[trigger] x.kv[j],
                upto(0, j, n + 1, 0),
                c,
                d,
            ) by {
                assert(upto(len, j, n, 1) == upto(0, j, n + 1, 0));
            }
        }
    }
}

/// A step depends on what its position can see, and on nothing else: from buffers
/// that agree on that, two runs end alike, and leave alike what the next step
/// sees.
pub proof fn law_step_depends_on_what_it_sees<V>(
    m: Meaning<V>,
    model: TextModel,
    device: Device,
    ids: Val,
    n: int,
    buffers: Seq<Buf>,
    a: Bufs,
    b: Bufs,
)
    requires
        m.masks(),
        m.len(ids.term) == 1,
        0 <= n,
        model.static_ctx matches Some(ctx) && mode_apart(ctx) && rests_alike(
            m,
            model,
            ModeVal::Step(ctx),
            n,
            model.kv@,
            buffers,
            a,
            b,
        ),
    ensures
        ends_alike(
            m,
            model,
            model.static_ctx->0,
            n,
            model.step_job(device, ids, a, buffers),
            model.step_job(device, ids, b, buffers),
        ),
{
    let ctx = model.static_ctx->0;
    let mode = ModeVal::Step(ctx);
    lemma_agree_self(m, ids, 1);
    lemma_entered_alike(m, model, ids, ids, 1);
    let x = model.embedded(ids);
    if let (Ok(plis), Ok(c), Ok(d)) = (
        model.per_layer_input(ids, x),
        ctx.refreshed(device, a),
        ctx.refreshed(device, b),
    ) {
        assert(of_mode(mode, ctx.mask_global.id as int));
        assert(of_mode(mode, ctx.mask_sliding.id as int));
        assert forall|id: int| !of_mode(mode, id) implies #[trigger] c[id] == a[id] by {}
        assert forall|id: int| !of_mode(mode, id) implies #[trigger] d[id] == b[id] by {}
        lemma_resting_frame(m, model, mode, 0, n, 0, model.kv@, buffers, (a, c), (b, d));
        assert(stands_at(mode, n, c));
        assert(stands_at(mode, n, d));
        assert forall|j: int| 0 <= j < model.kv@.len() && !shares(model, j) implies kept_alike(
            m,
            #[trigger] model.kv@[j],
            upto(0, j, n, 1),
            c,
            d,
        ) by {
            assert(upto(0, j, n, 0) == upto(0, j, n, 1));
        }
        lemma_agree_self(m, x, 1);
        let flow = |bufs: Bufs|
            Flow { x, bufs, buffers, kv: model.kv@, shared: Shared::none() };
        lemma_steps_alike(m, model, device, ctx, (plis, plis), 0, n, flow(c), flow(d));
    }
}

/// Two jobs that wait for the host, at position `at`, on values that agree in the
/// first `r` rows.
pub open spec fn passes_alike<V>(
    m: Meaning<V>,
    model: TextModel,
    p: Pass,
    q: Pass,
    at: int,
    r: int,
    buffers: Seq<Buf>,
    a: Bufs,
    b: Bufs,
) -> bool {
    &&& p.mode@ == q.mode@
    &&& p.layer == q.layer && p.layer < model.layers.len()
    &&& agree(m, p.half.residual@, q.half.residual@, r)
    &&& r <= m.len(p.half.residual@.term)
    &&& agree(m, p.half.mlp_out@, q.half.mlp_out@, r)
    &&& agree_opt(m, opt_val(p.half.probs), opt_val(q.half.probs), r)
    &&& p.half.probs is Some
    &&& agree_opt(m, opt_val(p.plis), opt_val(q.plis), r)
    &&& settled(m, model, p.mode@, p.layer + 1, at, r, model.kv@, buffers, a, b)
    &&& shared_alike(m, p.shared@, q.shared@, at + r)
}

/// Two steps that wait alike and get the same experts go on alike.
pub proof fn law_resumed_step_depends_on_what_it_sees<V>(
    m: Meaning<V>,
    model: TextModel,
    device: Device,
    p: Pass,
    q: Pass,
    plan: (Seq<Seq<usize>>, Seq<Seq<usize>>),
    n: int,
    buffers: Seq<Buf>,
    a: Bufs,
    b: Bufs,
)
    requires
        m.masks(),
        0 <= n,
        plans_agree(plan.0, plan.1, 1),
        model.static_ctx matches Some(ctx) && mode_apart(ctx) && p.task@ == TaskVal::Step(ctx)
            && q.task@ == TaskVal::Step(ctx) && p.mode@ == ModeVal::Step(ctx),
        passes_alike(m, model, p, q, n, 1, buffers, a, b),
    ensures
        ends_alike(
            m,
            model,
            model.static_ctx->0,
            n,
            model.resumed(device, p, plan.0, a, buffers),
            model.resumed(device, q, plan.1, b, buffers),
        ),
{
    let ctx = model.static_ctx->0;
    let i = p.layer as int;
    let l = model.layers[i];
    let (h, k) = (p.half, q.half);
    let plis = (opt_val(p.plis), opt_val(q.plis));
    lemma_slices_agree(m, plis, i, 1);
    lemma_agree_finished(
        m,
        l,
        device,
        (h.residual@, k.residual@),
        (h.mlp_out@, k.mlp_out@),
        (opt_val(h.probs), opt_val(k.probs)),
        plan,
        (slice_of(plis.0, i), slice_of(plis.1, i)),
        1,
    );
    let done = (
        l.finished(
            device,
            h.residual@,
            h.mlp_out@,
            opt_val(h.probs),
            plan.0,
            slice_of(plis.0, i),
        ),
        l.finished(
            device,
            k.residual@,
            k.mlp_out@,
            opt_val(k.probs),
            plan.1,
            slice_of(plis.1, i),
        ),
    );
    if let (Ok(y), Ok(z)) = done {
        lemma_steps_alike(
            m,
            model,
            device,
            ctx,
            plis,
            i + 1,
            n,
            Flow { x: y, bufs: a, buffers, kv: model.kv@, shared: p.shared@ },
            Flow { x: z, bufs: b, buffers, kv: model.kv@, shared: q.shared@ },
        );
    }
}

/// The buffers of values of two runs hold as many rows.
pub open spec fn filled_alike<V>(m: Meaning<V>, kvs: Seq<LayerKv>, a: Bufs, b: Bufs) -> bool {
    forall|i: int|
        0 <= i < kvs.len() ==> ((#[trigger] kvs[i]).statics matches Some(p) ==> m.len(
            a[p.v.id as int],
        ) == m.len(b[p.v.id as int]))
}

/// Rewinding makes a fresh start: whatever the static path held, it then rests as
/// one that has taken no step yet.
pub proof fn law_reset_rests_as_new<V>(
    m: Meaning<V>,
    model: TextModel,
    device: Device,
    mode: ModeVal,
    buffers: Seq<Buf>,
    used: Bufs,
    new: Bufs,
)
    requires
        model.kv.len() == model.layers.len(),
        model.static_ctx == Some(ctx_of(mode)),
        own_buffers(model.kv@, mode, buffers.len() as int),
        buffers.len() + 2 * unmade(model.kv@, model.kv.len() as int) <= usize::MAX,
        counted(new[ctx_of(mode).pos.id as int]) == Some(0int),
        filled_alike(m, model.kv@, used, new),
    ensures
        model.reset_effect(device, used) matches Ok(a) ==> rests_alike(
            m,
            model,
            mode,
            0,
            model.kv@,
            buffers,
            a,
            new,
        ),
{
    let pos = ctx_of(mode).pos.id as int;
    if let Ok(a) = model.reset_effect(device, used) {
        assert(of_mode(mode, pos));
        assert forall|j: int| 0 <= j < model.kv@.len() && !shares(model, j) implies kept_alike(
            m,
            #[trigger] model.kv@[j],
            upto(0, j, 0, 0),
            a,
            new,
        ) by {
            if let Some(p) = model.kv@[j].statics {
                assert(uses(model.kv@[j], p.v.id as int));
                assert(p.v.id != pos);
            }
        }
    }
}

/// The first step after a rewind is the first step of a new path, whatever came
/// before the rewind.
pub proof fn law_reset_is_a_fresh_start<V>(
    m: Meaning<V>,
    model: TextModel,
    device: Device,
    ids: Val,
    buffers: Seq<Buf>,
    used: Bufs,
    new: Bufs,
)
    requires
        m.masks(),
        m.len(ids.term) == 1,
        model.kv.len() == model.layers.len(),
        model.static_ctx matches Some(ctx) && mode_apart(ctx) && own_buffers(
            model.kv@,
            ModeVal::Step(ctx),
            buffers.len() as int,
        ) && counted(new[ctx.pos.id as int]) == Some(0int),
        buffers.len() + 2 * unmade(model.kv@, model.kv.len() as int) <= usize::MAX,
        filled_alike(m, model.kv@, used, new),
    ensures
        model.reset_effect(device, used) matches Ok(a) ==> ends_alike(
            m,
            model,
            model.static_ctx->0,
            0,
            model.step_job(device, ids, a, buffers),
            model.step_job(device, ids, new, buffers),
        ),
{
    let mode = ModeVal::Step(model.static_ctx->0);
    law_reset_rests_as_new(m, model, device, mode, buffers, used, new);
    if let Ok(a) = model.reset_effect(device, used) {
        law_step_depends_on_what_it_sees(m, model, device, ids, 0, buffers, a, new);
    }
}

} // verus!
