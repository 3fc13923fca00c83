//! A replayed step of the whole model is a pass over one token.
//!
//! [`crate::gemma4::agreement`] says it of the attention of one layer. Here it is
//! carried through the layers.
use vstd::prelude::*;

use crate::dtype::{DType, Device};
use crate::fused::{residual_norm, residual_sum};
use crate::gemma4::agreement::{
    first_seen, hands_out, holds_view, law_sharing_step_attends_as_the_pass,
    law_step_attends_as_the_pass, lemma_extents, lemma_same_turn, slots_alike, view_of,
};
use crate::gemma4::alike::{
    agree, agree_opt, lemma_agree_finished, lemma_agree_mlp, lemma_agree_norm, lemma_agree_proj,
    lemma_agree_residual, lemma_agree_self,
};
use crate::gemma4::attention::{Attention, AttnOut};
use crate::gemma4::context::{LayerKv, Shared, StaticCtx};
use crate::gemma4::layer::{DecoderLayer, HalfwayOut, ModeVal};
use crate::gemma4::masked::step_scores;
use crate::gemma4::model::{slice_of, Flow, Outcome, Ran, TaskVal, TextModel};
use crate::gemma4::rewind::{
    lemma_agree_attended, lemma_agree_heads, lemma_agree_probs, lemma_agree_turn,
    lemma_entered_alike, lemma_score_extent, lemma_slices_agree, lemma_step_alike, mode_apart,
    of_mode, only_own, own_buffers, pair_alike, shares, stands_at, uses,
};
use crate::kv_cache::{KvBufs, KvCache};
use crate::positions::{attended, lemma_bin_extent, lemma_un_extent, Meaning};
use crate::shape::{d2, d3, sat_product};
use crate::static_decode::{counted, Refused};
use crate::tape::{bin, held, tri, un, un_term, Buf, Bufs, Op, Scalar, Val, Weight};

verus! {

/// The masks of the context are those of its position.
pub open spec fn masks_fresh(ctx: StaticCtx, bufs: Bufs) -> bool {
    let pos = bufs[ctx.pos.id as int];
    let (g, s) = (ctx.mask_global.id as int, ctx.mask_sliding.id as int);
    &&& bufs.dom().contains(g) && bufs.dom().contains(s)
    &&& bufs[g] == un_term(Op::MaskRow { window: 0 }, pos)
    &&& bufs[s] == un_term(Op::MaskRow { window: ctx.sliding_window }, pos)
}

/// Fresh masks are refreshed to themselves, and stand at the position.
proof fn lemma_fresh(ctx: StaticCtx, device: Device, n: int, a: Bufs, b: Bufs)
    requires
        ctx.refreshed(device, a) is Ok,
        masks_fresh(ctx, b),
        mode_apart(ctx),
        counted(b[ctx.pos.id as int]) == Some(n),
    ensures
        ctx.refreshed(device, b) == Ok::<Bufs, Refused>(b),
        stands_at(ModeVal::Step(ctx), n, b),
{
    let (g, s) = (ctx.mask_global.id as int, ctx.mask_sliding.id as int);
    let pos = b[ctx.pos.id as int];
    assert(b.insert(g, un_term(Op::MaskRow { window: 0 }, pos)) =~= b);
    assert(b.insert(s, un_term(Op::MaskRow { window: ctx.sliding_window }, pos)) =~= b);
}

/// A layer keeps appended keys or values in buffer `id`.
pub open spec fn appends(kv: LayerKv, id: int) -> bool {
    kv.cache.bufs matches Some(c) && (c.k.id == id || c.v.id == id)
}

/// Static buffers hold what a growing cache hands out.
pub open spec fn keeps<V>(m: Meaning<V>, p: KvBufs, cache: KvCache, s: Bufs, e: Bufs) -> bool {
    cache.bufs matches Some(c) && {
        &&& holds_view(m, cache, s[p.k.id as int], e[c.k.id as int])
        &&& holds_view(m, cache, s[p.v.id as int], e[c.v.id as int])
        &&& m.history(e[c.k.id as int]) == m.history(e[c.v.id as int])
    }
}

/// A cache of one of the two kinds of layers, at position `n`.
pub open spec fn fits(a: Attention, ctx: StaticCtx, c: KvCache, n: usize) -> bool {
    &&& a.wf() && !a.use_flash_attn
    &&& a.is_sliding == c.rotating
    &&& c.len == n && n < a.rotary().rows()
    &&& c.rotating ==> c.max_seq > 0 && ctx.sliding_window > 0 && (c.max_seq
        == ctx.sliding_window + 1 || c.len < c.max_seq && c.len <= ctx.sliding_window)
}

/// The cache is of the kind of `c`, and has two buffers of its own.
pub open spec fn like(cache: KvCache, c: KvCache) -> bool {
    &&& cache.max_seq == c.max_seq && cache.rotating == c.rotating && cache.len == c.len
    &&& cache.bufs matches Some(p) && p.k.id != p.v.id
}

/// What was stored for later layers of a kind.
pub open spec fn slot_in_step<V>(
    m: Meaning<V>,
    a: Option<(Val, Val)>,
    b: Option<(Val, Val)>,
    c: KvCache,
    dtype: DType,
) -> bool {
    &&& a is Some <==> b is Some
    &&& a matches Some(p) ==> p.0.dtype == dtype && slots_alike(
        m,
        a,
        b,
        first_seen(c),
        c.len as int,
    )
}

/// The outputs of the two ways have the same extents and element type.
proof fn lemma_outputs<V>(m: Meaning<V>, f: Attention, u: Val, w: Val)
    requires
        m.len(u.term) == m.len(w.term),
        u.dtype == w.dtype,
    ensures
        ({
            let wide = Op::Reshape(d3(1, 1, sat_product(f.num_heads, f.head_dim)));
            let (a, b) = (f.o_proj.apply(un(wide, u)), f.output(w, 1, 1));
            &&& agree(m, a, b, 0)
            &&& a.shape == d3(1, 1, a.shape.d2)
            &&& a.dtype == u.dtype
            &&& m.len(a.term) == m.len(u.term)
        }),
{
    let wide = Op::Reshape(d3(1, 1, sat_product(f.num_heads, f.head_dim)));
    let swap = Op::Transpose(1, 2);
    lemma_un_extent(m, wide, u);
    lemma_un_extent(m, swap, w);
    lemma_un_extent(m, wide, un(swap, w));
    assert(agree(m, un(wide, u), un(wide, un(swap, w)), 0)) by {
        reveal(un);
    }
    lemma_agree_proj(m, f.o_proj, un(wide, u), un(wide, un(swap, w)), 0);
    assert(f.o_proj.apply(un(wide, u)).shape == d3(1, 1, f.o_proj.apply(un(wide, u)).shape.d2)
        && un(wide, u).dtype == u.dtype) by {
        reveal(un);
        reveal(bin);
    }
}

/// Extents, element type and positions of what a step and a pass give.
proof fn lemma_mixed_extents<V>(
    m: Meaning<V>,
    f: Attention,
    q: (Val, Val),
    fixed: (Val, Val),
    mask: Val,
    max_seq: usize,
    view: (Val, Val),
)
    requires
        m.masks(),
        !f.use_flash_attn,
        m.len(q.0.term) == m.len(q.1.term),
        q.1.dtype == fixed.0.dtype,
    ensures
        ({
            let a = f.step_mixed(q.0, fixed.0, fixed.1, mask, max_seq);
            let b = f.mixed(q.1, view.0, view.1, None, 1, 1);
            &&& agree(m, a, b, 0)
            &&& a.shape == d3(1, 1, a.shape.d2)
            &&& a.dtype == fixed.0.dtype
            &&& m.len(a.term) == m.len(q.0.term)
        }),
{
    let grouped = Op::Reshape(d3(f.num_kv_heads, f.num_kv_groups, f.head_dim));
    let (turned, to) = (Op::Transpose(1, 2), Op::ToDType(DType::F32));
    let flat = Op::Reshape(d3(1, 1, max_seq));
    lemma_score_extent(m, grouped, turned, to, flat, q.0, fixed.0, mask);
    let s = step_scores(f, q.0, fixed.0, mask, max_seq);
    let d = Some(fixed.0.dtype);
    lemma_agree_attended(m, d, (s, s), (fixed.1, fixed.1), 0);
    let rep = Op::RepeatKv(f.num_kv_groups);
    let (k, v) = (un(rep, view.0), un(rep, view.1));
    let product = bin(Op::MatMul, q.1, un(Op::Transpose(2, 3), k));
    lemma_bin_extent(m, Op::MatMul, q.1, un(Op::Transpose(2, 3), k));
    lemma_un_extent(m, Op::SoftmaxLast, product);
    lemma_bin_extent(m, Op::MatMul, un(Op::SoftmaxLast, product), v);
    let (u, w) = (
        attended(d, s, fixed.1),
        bin(Op::MatMul, un(Op::SoftmaxLast, product), v),
    );
    assert(u.dtype == fixed.0.dtype && w.dtype == q.1.dtype) by {
        reveal(un);
        reveal(bin);
    }
    lemma_outputs(m, f, u, w);
}

/// Rows that a cache hands out are found in any buffers that hold the same.
proof fn lemma_view_moved<V>(
    m: Meaning<V>,
    a: (Val, Val),
    b: (Val, Val),
    view: (Val, Val),
    lo: int,
    n: int,
)
    requires
        pair_alike(m, a, b, n + 1),
        slots_alike(m, Some(b), Some(view), lo, n),
    ensures
        slots_alike(m, Some(a), Some(view), lo, n),
{
    let turn = choose|turn: int| #[trigger] view_of(m, Some(b)->0, Some(view)->0, lo, n, turn);
    let len = n + 1 - lo;
    assert forall|k: int| 0 <= k < len implies #[trigger] hands_out(
        m,
        view.0,
        a.0,
        lo,
        len,
        turn,
        k,
    ) by {
        vstd::arithmetic::div_mod::lemma_mod_bound(k + turn, len);
        assert(hands_out(m, view.0, b.0, lo, len, turn, k));
        let j = lo + (k + turn) % len;
        assert(m.at(a.0.term, j) == m.at(b.0.term, j));
    }
    assert forall|k: int| 0 <= k < len implies #[trigger] hands_out(
        m,
        view.1,
        a.1,
        lo,
        len,
        turn,
        k,
    ) by {
        vstd::arithmetic::div_mod::lemma_mod_bound(k + turn, len);
        assert(hands_out(m, view.1, b.1, lo, len, turn, k));
        let j = lo + (k + turn) % len;
        assert(m.at(a.1.term, j) == m.at(b.1.term, j));
    }
    assert(view_of(m, Some(a)->0, Some(view)->0, lo, n, turn));
}

/// What a layer's attention leaves, in a step and in a pass.
pub open spec fn attention_in_step<V>(
    m: Meaning<V>,
    l: DecoderLayer,
    c: KvCache,
    kv: LayerKv,
    dtype: DType,
    before: (Bufs, Bufs),
    shared: (Shared, Shared),
    s: AttnOut,
    e: AttnOut,
) -> bool {
    let a = l.self_attn;
    &&& agree(m, s.out, e.out, 1)
    &&& s.out.shape == d3(1, 1, s.out.shape.d2) && s.out.dtype == dtype
    &&& m.len(s.out.term) == 1
    &&& left_in_step(
        m,
        l,
        c,
        kv,
        dtype,
        before,
        shared,
        (s.kv, s.bufs, s.shared),
        (e.kv, e.bufs, e.shared),
    )
}

/// Buffers, caches and stored states after a layer's attention.
pub open spec fn left_in_step<V>(
    m: Meaning<V>,
    l: DecoderLayer,
    c: KvCache,
    kv: LayerKv,
    dtype: DType,
    before: (Bufs, Bufs),
    shared: (Shared, Shared),
    s: (LayerKv, Bufs, Shared),
    e: (LayerKv, Bufs, Shared),
) -> bool {
    let a = l.self_attn;
    &&& s.0 == kv && e.0.statics == kv.statics && e.0.cache.bufs == kv.cache.bufs
    &&& !a.is_kv_shared ==> keeps(m, kv.statics->0, e.0.cache, s.1, e.1)
    &&& only_own(l, kv, before.0, s.1)
    &&& before.0.dom().subset_of(s.1.dom())
    &&& forall|id: int| a.is_kv_shared || !appends(kv, id) ==> #[trigger] e.1[id] == before.1[id]
    &&& s.2.slot(!a.is_sliding) == shared.0.slot(!a.is_sliding)
    &&& e.2.slot(!a.is_sliding) == shared.1.slot(!a.is_sliding)
    &&& slot_in_step(m, s.2.slot(a.is_sliding), e.2.slot(a.is_sliding), c, dtype)
}

/// Attention of a layer, in a step and in a pass.
#[verifier::rlimit(60)]
#[verifier::spinoff_prover]
proof fn lemma_attention_in_step<V>(
    m: Meaning<V>,
    l: DecoderLayer,
    device: Device,
    ctx: StaticCtx,
    n: usize,
    c: KvCache,
    x: (Val, Val),
    kv: LayerKv,
    buffers: (Seq<Buf>, Seq<Buf>),
    bufs: (Bufs, Bufs),
    shared: (Shared, Shared),
)
    requires
        m.masks() && m.mixes() && m.pairs_heads(),
        mode_apart(ctx),
        ctx.refreshed(device, bufs.0) is Ok,
        masks_fresh(ctx, bufs.0),
        counted(bufs.0[ctx.pos.id as int]) == Some(n as int),
        own_buffers(seq![kv], ModeVal::Step(ctx), buffers.0.len() as int),
        fits(l.self_attn, ctx, c, n),
        agree(m, x.0, x.1, 1),
        x.0.shape == d3(1, 1, x.0.shape.d2),
        m.len(x.0.term) == 1,
        !l.self_attn.is_kv_shared ==> {
            &&& like(kv.cache, c)
            &&& kv.statics matches Some(p) && n < m.len(bufs.0[p.v.id as int])
            &&& keeps(m, kv.statics->0, kv.cache, bufs.0, bufs.1)
        },
        kv.statics is None ==> buffers.0.len() + 2 <= usize::MAX,
        slot_in_step(
            m,
            shared.0.slot(l.self_attn.is_sliding),
            shared.1.slot(l.self_attn.is_sliding),
            c,
            x.0.dtype,
        ),
    ensures
        l.self_attn.step_pass(device, x.0, ctx, kv, buffers.0, bufs.0, shared.0) matches Ok(s) ==> {
            &&& l.self_attn.pass(x.1, None, None, n, kv, buffers.1, bufs.1, shared.1) matches Ok(e)
            &&& attention_in_step(m, l, c, kv, x.0.dtype, bufs, shared, s, e)
        },
{
    let f = l.self_attn;
    if let Ok(s) = f.step_pass(device, x.0, ctx, kv, buffers.0, bufs.0, shared.0) {
        lemma_fresh(ctx, device, n as int, bufs.0, bufs.0);
        lemma_step_alike(
            m,
            l,
            device,
            ctx,
            n as int,
            x,
            kv,
            buffers.0,
            bufs.0,
            bufs.0,
            (shared.0, shared.0),
        );
        let t = f.step_pass(device, x.1, ctx, kv, buffers.0, bufs.0, shared.0)->Ok_0;
        let at = held(bufs.0, ctx.pos);
        let y = x.1;
        lemma_agree_heads(m, f, x.0, y, 1, 1);
        lemma_agree_heads(m, f, y, y, 1, 1);
        lemma_same_turn(m, f.rotary(), f.query(y, 1, 1), at, n);
        lemma_same_turn(m, f.rotary(), f.key(y, 1, 1), at, n);
        lemma_agree_turn(m, f.rotary(), (f.query(y, 1, 1), f.query(y, 1, 1)), (at, at), 1);
        lemma_element_types(m, f, y);
        let q = (
            f.rotary().at_rows(f.query(y, 1, 1), at),
            f.rotary().at_offset(f.query(y, 1, 1), n, 1),
        );
        assert(q.1.dtype == y.dtype) by {
            reveal(tri);
        }
        let mask = held(
            t.bufs,
            if f.is_sliding { ctx.mask_sliding } else { ctx.mask_global },
        );
        if f.is_kv_shared {
            law_sharing_step_attends_as_the_pass(
                m,
                f,
                device,
                y,
                ctx,
                kv,
                c,
                (buffers.0, bufs.0),
                (buffers.1, bufs.1),
                shared,
            );
            let e = f.pass(y, None, None, n, kv, buffers.1, bufs.1, shared.1)->Ok_0;
            let (fixed, view) = (
                shared.0.slot(f.is_sliding)->0,
                shared.1.slot(f.is_sliding)->0,
            );
            lemma_mixed_extents(m, f, q, fixed, mask, ctx.max_seq, view);
            lemma_joined(m, s.out, t.out, e.out);
        } else {
            lemma_extents(m, f, y);
            let mode = ModeVal::Step(ctx);
            assert(seq![kv][0] == kv);
            assert(uses(seq![kv][0], kv.statics->0.k.id as int));
            assert(uses(seq![kv][0], kv.statics->0.v.id as int));
            assert(!of_mode(mode, kv.statics->0.k.id as int));
            assert(!of_mode(mode, kv.statics->0.v.id as int));
            law_step_attends_as_the_pass(
                m,
                f,
                device,
                y,
                ctx,
                kv,
                (buffers.0, bufs.0),
                (buffers.1, bufs.1),
                shared,
            );
            let e = f.pass(y, None, None, n, kv, buffers.1, bufs.1, shared.1)->Ok_0;
            let p = kv.statics->0;
            let r = kv.cache.bufs->0;
            let k = f.rotary().at_offset(f.key(y, 1, 1), n, 1);
            let v = f.value(y, 1, 1);
            let view = kv.cache.views(buffers.1, bufs.1, k, v);
            let (fixed, own) = (
                (held(t.bufs, p.k), held(t.bufs, p.v)),
                (held(s.bufs, p.k), held(s.bufs, p.v)),
            );
            assert(y.dtype == p.k.dtype) by {
                reveal(un);
                reveal(tri);
            }
            lemma_mixed_extents(m, f, q, fixed, mask, ctx.max_seq, view);
            lemma_joined(m, s.out, t.out, e.out);
            assert(first_seen(kv.cache) == first_seen(c));
            assert(e.kv.cache.len == n + 1);
            assert(0 <= first_seen(e.kv.cache));
            assert(pair_alike(m, own, fixed, n + 1));
            let (ki, vi) = (p.k.id as int, p.v.id as int);
            assert(keeps(m, p, e.kv.cache, s.bufs, e.bufs)) by {
                assert forall|j: int|
                    first_seen(e.kv.cache) <= j < e.kv.cache.len implies #[trigger] m.at(
                    s.bufs[ki],
                    j,
                ) == m.at(e.bufs[r.k.id as int], j) by {
                    assert(m.at(own.0.term, j) == m.at(fixed.0.term, j));
                    assert(m.at(t.bufs[ki], j) == m.at(e.bufs[r.k.id as int], j));
                }
                assert forall|j: int|
                    first_seen(e.kv.cache) <= j < e.kv.cache.len implies #[trigger] m.at(
                    s.bufs[vi],
                    j,
                ) == m.at(e.bufs[r.v.id as int], j) by {
                    assert(m.at(own.1.term, j) == m.at(fixed.1.term, j));
                    assert(m.at(t.bufs[vi], j) == m.at(e.bufs[r.v.id as int], j));
                }
            }
            if f.store_full_length_kv {
                lemma_view_moved(m, own, fixed, view, first_seen(c), n as int);
            }
        }
    }
}

/// Queries and keys keep the element type.
proof fn lemma_element_types<V>(m: Meaning<V>, f: Attention, x: Val)
    ensures
        f.query(x, 1, 1).dtype == x.dtype,
        f.key(x, 1, 1).dtype == x.dtype,
{
    lemma_agree_self(m, x, 0);
    lemma_agree_proj(m, f.q_proj, x, x, 0);
    lemma_agree_proj(m, f.k_proj->0, x, x, 0);
    let q = f.heads(f.q_proj.apply(x), f.num_heads, 1, 1);
    let k = f.key_raw(x, 1, 1);
    assert(q.dtype == x.dtype && k.dtype == x.dtype) by {
        reveal(un);
    }
    lemma_agree_self(m, q, 0);
    lemma_agree_self(m, k, 0);
    lemma_agree_norm(m, f.q_norm, q, q, 0);
    lemma_agree_norm(m, f.k_norm->0, k, k, 0);
}

/// From one step to another, and from that to the pass.
proof fn lemma_joined<V>(m: Meaning<V>, a: Val, b: Val, c: Val)
    requires
        agree(m, a, b, 1),
        agree(m, b, c, 0),
        m.same(b, 0, c, 0),
    ensures
        agree(m, a, c, 1),
{
    assert forall|i: int| 0 <= i < 1 implies #[trigger] m.same(a, i, c, i) by {
        assert(m.same(a, 0, b, 0));
    }
}

/// Sums on the residual stream have the extents and the element type of what is
/// added to it.
proof fn lemma_residual_shape(
    device: Device,
    y: Val,
    x: Val,
    w: Weight,
    eps: Scalar,
)
    requires
        y.shape == d3(1, 1, y.shape.d2),
    ensures
        residual_sum(device, y, x, w, eps, false).shape == y.shape,
        residual_sum(device, y, x, w, eps, false).dtype == y.dtype,
{
    reveal(un);
    reveal(bin);
    reveal(tri);
}

/// The rest of a layer keeps the extents and the element type.
proof fn lemma_finished_shape(
    l: DecoderLayer,
    device: Device,
    residual: Val,
    mlp: Val,
    probs: Option<Val>,
    plan: Seq<Seq<usize>>,
    pli: Option<Val>,
)
    ensures
        l.finished(device, residual, mlp, probs, plan, pli) matches Ok(y) ==> y.shape
            == residual.shape && y.dtype == residual.dtype,
{
    reveal(DecoderLayer::finished);
    reveal(un);
    reveal(bin);
}

/// What the second half of a layer works on, in a step and in a pass.
pub open spec fn halves_in_step<V>(
    m: Meaning<V>,
    l: DecoderLayer,
    dtype: DType,
    h: HalfwayOut,
    k: HalfwayOut,
) -> bool {
    &&& agree(m, h.residual, k.residual, 1)
    &&& h.residual.shape == d3(1, 1, h.residual.shape.d2) && h.residual.dtype == dtype
    &&& m.len(h.residual.term) == 1
    &&& agree(m, h.mlp_out, k.mlp_out, 1)
    &&& agree_opt(m, h.probs, k.probs, 1)
    &&& l.host_routed() ==> h.probs is Some
}

/// The first half of a layer, in a step and in a pass.
proof fn lemma_halfway_in_step<V>(
    m: Meaning<V>,
    l: DecoderLayer,
    device: Device,
    ctx: StaticCtx,
    n: usize,
    c: KvCache,
    x: (Val, Val),
    kv: LayerKv,
    buffers: (Seq<Buf>, Seq<Buf>),
    bufs: (Bufs, Bufs),
    shared: (Shared, Shared),
)
    requires
        m.masks() && m.mixes() && m.pairs_heads(),
        mode_apart(ctx),
        ctx.refreshed(device, bufs.0) is Ok,
        masks_fresh(ctx, bufs.0),
        counted(bufs.0[ctx.pos.id as int]) == Some(n as int),
        own_buffers(seq![kv], ModeVal::Step(ctx), buffers.0.len() as int),
        fits(l.self_attn, ctx, c, n),
        agree(m, x.0, x.1, 1),
        x.0.shape == d3(1, 1, x.0.shape.d2),
        m.len(x.0.term) == 1,
        !l.self_attn.is_kv_shared ==> {
            &&& like(kv.cache, c)
            &&& kv.statics matches Some(p) && n < m.len(bufs.0[p.v.id as int])
            &&& keeps(m, kv.statics->0, kv.cache, bufs.0, bufs.1)
        },
        kv.statics is None ==> buffers.0.len() + 2 <= usize::MAX,
        slot_in_step(
            m,
            shared.0.slot(l.self_attn.is_sliding),
            shared.1.slot(l.self_attn.is_sliding),
            c,
            x.0.dtype,
        ),
    ensures
        l.halfway(device, ModeVal::Step(ctx), x.0, kv, buffers.0, bufs.0, shared.0) matches Ok(h)
            ==> {
            &&& l.halfway(
                device,
                ModeVal::Dynamic(None, None, n),
                x.1,
                kv,
                buffers.1,
                bufs.1,
                shared.1,
            ) matches Ok(k)
            &&& halves_in_step(m, l, x.0.dtype, h, k)
            &&& h.buffers == buffers.0
            &&& left_in_step(
                m,
                l,
                c,
                kv,
                x.0.dtype,
                bufs,
                shared,
                (h.kv, h.bufs, h.shared),
                (k.kv, k.bufs, k.shared),
            )
        },
{
    reveal(DecoderLayer::halfway);
    let norm = l.input_layernorm;
    lemma_agree_norm(m, norm, x.0, x.1, 1);
    let normed = (norm.apply(x.0), norm.apply(x.1));
    let f = l.self_attn;
    lemma_attention_in_step(m, l, device, ctx, n, c, normed, kv, buffers, bufs, shared);
    if let Ok(s) = f.step_pass(device, normed.0, ctx, kv, buffers.0, bufs.0, shared.0) {
        let e = f.pass(normed.1, None, None, n, kv, buffers.1, bufs.1, shared.1)->Ok_0;
        let norm = l.post_attention_layernorm;
        lemma_agree_norm(m, norm, s.out, e.out, 1);
        let y = (norm.apply(s.out), norm.apply(e.out));
        let w = l.pre_feedforward_layernorm.weight;
        let eps = Scalar::F32(l.pre_feedforward_layernorm.eps);
        lemma_agree_residual(m, device, y, x, w, eps, 1);
        lemma_residual_shape(device, y.0, x.0, w, eps);
        lemma_agree_mlp(
            m,
            l.mlp,
            residual_norm(device, y.0, x.0, w, eps, false),
            residual_norm(device, y.1, x.1, w, eps, false),
            1,
        );
        if l.host_routed() {
            lemma_agree_probs(
                m,
                l.moe->0,
                residual_sum(device, y.0, x.0, w, eps, false),
                residual_sum(device, y.1, x.1, w, eps, false),
                1,
            );
        }
    }
}

/// The kind of cache of sliding layers, or of the others.
pub open spec fn kind(kinds: (KvCache, KvCache), sliding: bool) -> KvCache {
    if sliding {
        kinds.1
    } else {
        kinds.0
    }
}

/// A model whose static buffers and growing caches are there, apart from each
/// other, and have both come to position `n`.
pub open spec fn both_ways(
    model: TextModel,
    ctx: StaticCtx,
    n: usize,
    kinds: (KvCache, KvCache),
    buffers: Seq<Buf>,
) -> bool {
    let kv = model.kv@;
    &&& kv.len() == model.layers.len()
    &&& mode_apart(ctx)
    &&& own_buffers(kv, ModeVal::Step(ctx), buffers.len() as int)
    &&& buffers.len() + 2 <= usize::MAX
    &&& forall|j: int|
        0 <= j < kv.len() ==> fits(
            #[trigger] model.layers[j].self_attn,
            ctx,
            kind(kinds, model.layers[j].self_attn.is_sliding),
            n,
        )
    &&& forall|j: int|
        0 <= j < kv.len() && !shares(model, j) ==> (#[trigger] kv[j]).statics is Some && like(
            kv[j].cache,
            kind(kinds, model.layers[j].self_attn.is_sliding),
        )
    &&& forall|i: int, j: int, id: int|
        0 <= i < kv.len() && 0 <= j < kv.len() && i != j && #[trigger] appends(kv[i], id) ==> !(
        #[trigger] appends(kv[j], id))
}

/// The contents of buffers and caches while layer `i` is next.
pub open spec fn world_in_step<V>(
    m: Meaning<V>,
    model: TextModel,
    ctx: StaticCtx,
    n: usize,
    i: int,
    s: Bufs,
    kvs: Seq<LayerKv>,
    e: Bufs,
) -> bool {
    let kv = model.kv@;
    &&& masks_fresh(ctx, s)
    &&& counted(s[ctx.pos.id as int]) == Some(n as int)
    &&& kvs.len() == kv.len()
    &&& forall|j: int| i <= j < kv.len() ==> #[trigger] kvs[j] == kv[j]
    &&& forall|j: int|
        0 <= j < kv.len() && !shares(model, j) ==> (#[trigger] kvs[j]).cache.bufs
            == kv[j].cache.bufs && keeps(m, kv[j].statics->0, kvs[j].cache, s, e)
    &&& forall|j: int|
        i <= j < kv.len() && !shares(model, j) ==> n < m.len(
            s[(#[trigger] kv[j]).statics->0.v.id as int],
        )
}

/// What was stored for later layers, of both kinds.
pub open spec fn stored_in_step<V>(
    m: Meaning<V>,
    a: Shared,
    b: Shared,
    kinds: (KvCache, KvCache),
    dtype: DType,
) -> bool {
    &&& slot_in_step(m, a.slot(false), b.slot(false), kinds.0, dtype)
    &&& slot_in_step(m, a.slot(true), b.slot(true), kinds.1, dtype)
}

/// A value on its way through the layers, in a step and in a pass.
pub open spec fn flows_in_step<V>(
    m: Meaning<V>,
    model: TextModel,
    ctx: StaticCtx,
    n: usize,
    kinds: (KvCache, KvCache),
    i: int,
    f: Flow,
    g: Flow,
) -> bool {
    &&& agree(m, f.x, g.x, 1)
    &&& f.x.shape == d3(1, 1, f.x.shape.d2) && m.len(f.x.term) == 1
    &&& f.kv == model.kv@
    &&& both_ways(model, ctx, n, kinds, f.buffers)
    &&& world_in_step(m, model, ctx, n, i, f.bufs, g.kv, g.bufs)
    &&& stored_in_step(m, f.shared, g.shared, kinds, f.x.dtype)
}

/// The first half of layer `i` leaves the contents as they are due.
proof fn lemma_world_next<V>(
    m: Meaning<V>,
    model: TextModel,
    ctx: StaticCtx,
    n: usize,
    kinds: (KvCache, KvCache),
    i: int,
    dtype: DType,
    buffers: Seq<Buf>,
    kvs: Seq<LayerKv>,
    before: (Bufs, Bufs),
    shared: (Shared, Shared),
    s: (LayerKv, Bufs, Shared),
    e: (LayerKv, Bufs, Shared),
)
    requires
        0 <= i < model.layers.len(),
        both_ways(model, ctx, n, kinds, buffers),
        world_in_step(m, model, ctx, n, i, before.0, kvs, before.1),
        stored_in_step(m, shared.0, shared.1, kinds, dtype),
        left_in_step(
            m,
            model.layers[i],
            kind(kinds, model.layers[i].self_attn.is_sliding),
            model.kv@[i],
            dtype,
            before,
            shared,
            s,
            e,
        ),
    ensures
        world_in_step(m, model, ctx, n, i + 1, s.1, kvs.update(i, e.0), e.1),
        stored_in_step(m, s.2, e.2, kinds, dtype),
{
    let kv = model.kv@;
    let mode = ModeVal::Step(ctx);
    let next = kvs.update(i, e.0);
    assert(of_mode(mode, ctx.pos.id as int) && of_mode(mode, ctx.mask_global.id as int));
    assert(of_mode(mode, ctx.mask_sliding.id as int));
    assert forall|id: int| #[trigger] of_mode(mode, id) implies s.1[id] == before.0[id] by {
        assert(uses(kv[i], id) ==> !of_mode(mode, id));
        assert(s.1[id] == before.0[id]);
    }
    assert forall|j: int| 0 <= j < kv.len() && !shares(model, j) && j != i implies ({
        let p = kv[j].statics->0;
        &&& s.1[p.k.id as int] == before.0[p.k.id as int]
        &&& s.1[p.v.id as int] == before.0[p.v.id as int]
    }) && (#[trigger] next[j]).cache.bufs == kv[j].cache.bufs && keeps(
        m,
        kv[j].statics->0,
        next[j].cache,
        s.1,
        e.1,
    ) by {
        let p = kv[j].statics->0;
        assert(kvs[j].cache.bufs == kv[j].cache.bufs);
        let c = kv[j].cache.bufs->0;
        assert(uses(kv[j], p.k.id as int) && uses(kv[j], p.v.id as int));
        assert(!uses(kv[i], p.k.id as int) && !uses(kv[i], p.v.id as int));
        assert(s.1[p.k.id as int] == before.0[p.k.id as int]);
        assert(s.1[p.v.id as int] == before.0[p.v.id as int]);
        assert(appends(kv[j], c.k.id as int) && appends(kv[j], c.v.id as int));
        assert(!appends(kv[i], c.k.id as int) && !appends(kv[i], c.v.id as int));
        assert(e.1[c.k.id as int] == before.1[c.k.id as int]);
        assert(e.1[c.v.id as int] == before.1[c.v.id as int]);
    }
    assert forall|j: int| i + 1 <= j < kv.len() && !shares(model, j) implies n < m.len(
        s.1[(#[trigger] kv[j]).statics->0.v.id as int],
    ) by {
        assert(next[j].cache.bufs == kv[j].cache.bufs);
    }
}

/// Where a step and a pass come to.
pub open spec fn rans_in_step<V>(
    m: Meaning<V>,
    model: TextModel,
    ctx: StaticCtx,
    n: usize,
    kinds: (KvCache, KvCache),
    dtype: DType,
    a: Ran,
    b: Ran,
) -> bool {
    match a {
        Ran::Failed(_) => true,
        Ran::Paused(j, h, kv) => {
            &&& b matches Ran::Paused(j2, k, kv2)
            &&& j == j2 && 0 <= j < model.layers.len() && kv == model.kv@
            &&& halves_in_step(m, model.layers[j], dtype, h, k)
            &&& both_ways(model, ctx, n, kinds, h.buffers)
            &&& world_in_step(m, model, ctx, n, j + 1, h.bufs, kv2, k.bufs)
            &&& stored_in_step(m, h.shared, k.shared, kinds, dtype)
        },
        Ran::Through(f) => {
            &&& b matches Ran::Through(g)
            &&& flows_in_step(m, model, ctx, n, kinds, model.layers.len() as int, f, g)
            &&& f.x.dtype == dtype
        },
    }
}

/// The layers from `i` on, in a step and in a pass.
#[verifier::rlimit(30)]
proof fn lemma_runs_in_step<V>(
    m: Meaning<V>,
    model: TextModel,
    device: Device,
    ctx: StaticCtx,
    n: usize,
    kinds: (KvCache, KvCache),
    plis: (Option<Val>, Option<Val>),
    i: int,
    f: Flow,
    g: Flow,
)
    requires
        m.masks() && m.mixes() && m.pairs_heads(),
        ctx.refreshed(device, f.bufs) is Ok,
        0 <= i <= model.layers.len(),
        agree_opt(m, plis.0, plis.1, 1),
        flows_in_step(m, model, ctx, n, kinds, i, f, g),
    ensures
        rans_in_step(
            m,
            model,
            ctx,
            n,
            kinds,
            f.x.dtype,
            model.run(device, ModeVal::Step(ctx), plis.0, i, f),
            model.run(device, ModeVal::Dynamic(None, None, n), plis.1, i, g),
        ),
    decreases model.layers.len() - i,
{
    let mode = ModeVal::Step(ctx);
    let eager = ModeVal::Dynamic(None, None, n);
    if i < model.layers.len() {
        let l = model.layers[i];
        let kv = model.kv@[i];
        let c = kind(kinds, l.self_attn.is_sliding);
        assert(g.kv[i] == kv);
        assert(fits(model.layers[i].self_attn, ctx, c, n));
        assert(own_buffers(seq![kv], mode, f.buffers.len() as int)) by {
            assert forall|j: int, id: int|
                0 <= j < seq![kv].len() && #[trigger] uses(seq![kv][j], id) implies id
                < f.buffers.len() && !of_mode(mode, id) by {
                assert(uses(model.kv@[i], id));
            }
        }
        lemma_halfway_in_step(
            m,
            l,
            device,
            ctx,
            n,
            c,
            (f.x, g.x),
            kv,
            (f.buffers, g.buffers),
            (f.bufs, g.bufs),
            (f.shared, g.shared),
        );
        if let Ok(h) = l.halfway(device, mode, f.x, kv, f.buffers, f.bufs, f.shared) {
            let k = l.halfway(device, eager, g.x, kv, g.buffers, g.bufs, g.shared)->Ok_0;
            lemma_world_next(
                m,
                model,
                ctx,
                n,
                kinds,
                i,
                f.x.dtype,
                f.buffers,
                g.kv,
                (f.bufs, g.bufs),
                (f.shared, g.shared),
                (h.kv, h.bufs, h.shared),
                (k.kv, k.bufs, k.shared),
            );
            assert(f.kv.update(i, h.kv) =~= model.kv@);
            if !l.host_routed() {
                let none = Seq::<Seq<usize>>::empty();
                let pli = (slice_of(plis.0, i), slice_of(plis.1, i));
                lemma_slices_agree(m, plis, i, 1);
                lemma_agree_finished(
                    m,
                    l,
                    device,
                    (h.residual, k.residual),
                    (h.mlp_out, k.mlp_out),
                    (h.probs, k.probs),
                    (none, none),
                    pli,
                    1,
                );
                lemma_finished_shape(l, device, h.residual, h.mlp_out, h.probs, none, pli.0);
                if let (Ok(y), Ok(z)) = (
                    l.finished(device, h.residual, h.mlp_out, h.probs, none, pli.0),
                    l.finished(device, k.residual, k.mlp_out, k.probs, none, pli.1),
                ) {
                    lemma_refreshable(ctx, device, f.bufs, h.bufs);
                    lemma_runs_in_step(
                        m,
                        model,
                        device,
                        ctx,
                        n,
                        kinds,
                        plis,
                        i + 1,
                        Flow {
                            x: y,
                            bufs: h.bufs,
                            buffers: h.buffers,
                            kv: model.kv@,
                            shared: h.shared,
                        },
                        Flow {
                            x: z,
                            bufs: k.bufs,
                            buffers: k.buffers,
                            kv: g.kv.update(i, k.kv),
                            shared: k.shared,
                        },
                    );
                }
            }
        }
    }
}

/// Whether masks can be refreshed does not depend on what buffers hold.
proof fn lemma_refreshable(ctx: StaticCtx, device: Device, a: Bufs, b: Bufs)
    requires
        ctx.refreshed(device, a) is Ok,
    ensures
        ctx.refreshed(device, b) is Ok,
{
}

/// Static buffers keep what they hold when the position advances.
proof fn lemma_kept_on<V>(
    m: Meaning<V>,
    model: TextModel,
    ctx: StaticCtx,
    n: usize,
    kinds: (KvCache, KvCache),
    buffers: Seq<Buf>,
    s: Bufs,
    kvs: Seq<LayerKv>,
    e: Bufs,
)
    requires
        both_ways(model, ctx, n, kinds, buffers),
        world_in_step(m, model, ctx, n, model.layers.len() as int, s, kvs, e),
    ensures
        ({
            let pos = ctx.pos.id as int;
            let after = s.insert(pos, un_term(Op::AddU32(1), s[pos]));
            forall|j: int|
                0 <= j < kvs.len() && !shares(model, j) ==> keeps(
                    m,
                    model.kv@[j].statics->0,
                    (#[trigger] kvs[j]).cache,
                    after,
                    e,
                )
        }),
{
    let pos = ctx.pos.id as int;
    let after = s.insert(pos, un_term(Op::AddU32(1), s[pos]));
    assert(of_mode(ModeVal::Step(ctx), pos));
    assert forall|j: int| 0 <= j < kvs.len() && !shares(model, j) implies keeps(
        m,
        model.kv@[j].statics->0,
        (#[trigger] kvs[j]).cache,
        after,
        e,
    ) by {
        let p = model.kv@[j].statics->0;
        assert(uses(model.kv@[j], p.k.id as int) && uses(model.kv@[j], p.v.id as int));
        assert(after[p.k.id as int] == s[p.k.id as int]);
        assert(after[p.v.id as int] == s[p.v.id as int]);
    }
}

/// How a step ends after the layers.
proof fn lemma_step_ends(
    model: TextModel,
    device: Device,
    ctx: StaticCtx,
    plis: Option<Val>,
    f: Flow,
)
    ensures
        ({
            let mode = ModeVal::Step(ctx);
            let pos = ctx.pos.id as int;
            let job = model.drive(device, TaskVal::Step(ctx), mode, plis, 0, f);
            match model.run(device, mode, plis, 0, f) {
                Ran::Failed(_) => job is Failed,
                Ran::Paused(i, h, kv) => job == Outcome::Paused(
                    TaskVal::Step(ctx),
                    mode,
                    plis,
                    i,
                    h,
                    kv,
                ),
                Ran::Through(g) => job is Failed || job == (Outcome::Done {
                    hidden: g.x,
                    logits: model.logits(g.x),
                    bufs: g.bufs.insert(pos, un_term(Op::AddU32(1), g.bufs[pos])),
                    buffers: g.buffers,
                    kv: g.kv,
                }),
            }
        }),
{
    reveal(TextModel::next);
}

/// How a pass over one token ends after the layers.
proof fn lemma_pass_ends(
    model: TextModel,
    device: Device,
    n: usize,
    plis: Option<Val>,
    f: Flow,
)
    ensures
        ({
            let mode = ModeVal::Dynamic(None, None, n);
            let job = model.drive(device, TaskVal::Forward(1), mode, plis, 0, f);
            match model.run(device, mode, plis, 0, f) {
                Ran::Failed(_) => job is Failed,
                Ran::Paused(i, h, kv) => job == Outcome::Paused(
                    TaskVal::Forward(1),
                    mode,
                    plis,
                    i,
                    h,
                    kv,
                ),
                Ran::Through(g) => job == (Outcome::Done {
                    hidden: g.x,
                    logits: model.logits(un(Op::Narrow { dim: 1, start: 0, len: 1 }, g.x)),
                    bufs: g.bufs,
                    buffers: g.buffers,
                    kv: g.kv,
                }),
            }
        }),
{
    reveal(TextModel::next);
}

/// A replayed step gives what a pass over one token gives. Where static buffers
/// and growing caches hold the same and have come to the same position, the two
/// ways give the same output, of which the logits are taken, or wait at the same
/// layer on the same values, and the buffers and the caches hold the same
/// afterwards.
#[verifier::rlimit(30)]
pub proof fn law_step_is_the_pass<V>(
    m: Meaning<V>,
    model: TextModel,
    device: Device,
    ids: Val,
    n: usize,
    kinds: (KvCache, KvCache),
    stepped: (Seq<Buf>, Bufs),
    eager: (Seq<Buf>, Bufs),
)
    requires
        m.masks() && m.mixes() && m.pairs_heads(),
        ids.shape == d2(1, 1),
        m.len(ids.term) == 1,
        model.static_ctx matches Some(ctx) && {
            &&& both_ways(model, ctx, n, kinds, stepped.0)
            &&& ctx.refreshed(device, stepped.1) matches Ok(b)
            &&& world_in_step(m, model, ctx, n, 0, b, model.kv@, eager.1)
        },
    ensures
        match model.step_job(device, ids, stepped.1, stepped.0) {
            Outcome::Failed(_) => true,
            Outcome::Paused(_, _, plis, layer, h, kv) => {
                &&& model.forward_job(device, ids, n, eager.1, eager.0) matches Outcome::Paused(
                    _,
                    _,
                    plis2,
                    layer2,
                    k,
                    kv2,
                )
                &&& plis == plis2
                &&& rans_in_step(
                    m,
                    model,
                    model.static_ctx->0,
                    n,
                    kinds,
                    model.dtype,
                    Ran::Paused(layer, h, kv),
                    Ran::Paused(layer2, k, kv2),
                )
            },
            Outcome::Done { hidden, logits, bufs, buffers: _, kv: _ } => {
                let one = Op::Narrow { dim: 1, start: 0, len: 1 };
                &&& model.forward_job(device, ids, n, eager.1, eager.0) matches Outcome::Done {
                    hidden: hidden2,
                    logits: logits2,
                    bufs: bufs2,
                    buffers: _,
                    kv: kv2,
                }
                &&& m.same(hidden, 0, hidden2, 0)
                &&& m.len(hidden.term) == 1 && m.len(hidden2.term) == 1
                &&& logits == model.logits(hidden)
                &&& logits2 == model.logits(un(one, hidden2))
                &&& forall|j: int|
                    0 <= j < kv2.len() && !shares(model, j) ==> keeps(
                        m,
                        model.kv@[j].statics->0,
                        (#[trigger] kv2[j]).cache,
                        bufs,
                        bufs2,
                    )
            },
        },
{
    let ctx = model.static_ctx->0;
    let x = model.embedded(ids);
    lemma_agree_self(m, ids, 1);
    lemma_entered_alike(m, model, ids, ids, 1);
    lemma_agree_self(m, x, 1);
    assert(x.shape == d3(1, 1, x.shape.d2) && x.dtype == model.dtype) by {
        reveal(un);
    }
    if let (Ok(plis), Ok(b)) = (model.per_layer_input(ids, x), ctx.refreshed(device, stepped.1)) {
        let none = Shared::none();
        let f = Flow { x, bufs: b, buffers: stepped.0, kv: model.kv@, shared: none };
        let g = Flow { x, bufs: eager.1, buffers: eager.0, kv: model.kv@, shared: none };
        lemma_refreshable(ctx, device, stepped.1, b);
        lemma_runs_in_step(m, model, device, ctx, n, kinds, (plis, plis), 0, f, g);
        assert(model.pass_masks(1, 1, n) == (None::<Val>, None::<Val>));
        lemma_step_ends(model, device, ctx, plis, f);
        lemma_pass_ends(model, device, n, plis, g);
        if let (Ran::Through(y), Ran::Through(z)) = (
            model.run(device, ModeVal::Step(ctx), plis, 0, f),
            model.run(device, ModeVal::Dynamic(None, None, n), plis, 0, g),
        ) {
            assert(m.same(y.x, 0, z.x, 0));
            lemma_kept_on(m, model, ctx, n, kinds, y.buffers, y.bufs, z.kv, z.bufs);
        }
    }
}

} // verus!
