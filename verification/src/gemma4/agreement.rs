//! What a step and a pass over one token have in common.
use vstd::prelude::*;

use crate::dtype::{DType, Device};
use crate::fused::rms_normalized;
use crate::gathering::{counts, lemma_sees, lemma_taken_ring, rings, shows};
use crate::gemma4::attention::Attention;
use crate::gemma4::context::{LayerKv, Shared, StaticCtx};
use crate::gemma4::laws::law_step_mask_is_the_view;
use crate::gemma4::masked::{mask_of, step_scores};
use crate::gemma4::norm::{internal_dtype, v_normed, RmsNorm, RotaryEmbedding};
use crate::kv_cache::KvCache;
use crate::positions::{
    attended, blocked_score, lemma_cell_product, lemma_counted_row, lemma_laid_out,
    lemma_bin_extent, lemma_looked_up, lemma_row_written, lemma_same_bin, lemma_same_tri,
    lemma_same_un, lemma_un_extent, Meaning,
};
use crate::gemma4::masked::lemma_step_score;
use crate::qwen3_5::pieces::{lemma_same_proj, lemma_same_rms};
use crate::rows::cell_blocked;
use crate::shape::{d2, d3, sat_product};
use crate::static_decode::counted;
use crate::tape::{bin, held, leaf, un, Buf, Bufs, Op, Scalar, Term, Val, Weight};

verus! {

/// Position `k` of what a cache hands out is a row of a static buffer, from row
/// `lo` on, as a ring of `len` rows that begins after `turn` of them.
pub open spec fn hands_out<V>(
    m: Meaning<V>,
    view: Val,
    rows: Val,
    lo: int,
    len: int,
    turn: int,
    k: int,
) -> bool {
    m.same(view, k, rows, lo + (k + turn) % len)
}

/// A cache hands out the keys and values of rows `lo` to `n` of static buffers.
pub open spec fn view_of<V>(
    m: Meaning<V>,
    fixed: (Val, Val),
    view: (Val, Val),
    lo: int,
    n: int,
    turn: int,
) -> bool {
    &&& 0 <= lo <= n < m.len(fixed.1.term)
    &&& m.len(view.1.term) == n + 1 - lo
    &&& forall|k: int|
        0 <= k < n + 1 - lo ==> #[trigger] hands_out(
            m,
            view.0,
            fixed.0,
            lo,
            n + 1 - lo,
            turn,
            k,
        )
    &&& forall|k: int|
        0 <= k < n + 1 - lo ==> #[trigger] hands_out(
            m,
            view.1,
            fixed.1,
            lo,
            n + 1 - lo,
            turn,
            k,
        )
}

/// What a query sees of row `j`.
pub open spec fn row_item<V>(m: Meaning<V>, q: Val, k: Val, v: Val) -> spec_fn(int) -> (V, V) {
    |j: int| ((m.score)(m.at(q.term, 0), m.at(k.term, j)), m.at(v.term, j))
}

/// Attention over a whole buffer through a mask that shows rows `lo` to `n`, and
/// attention over a cache that hands out these rows, give the same.
pub proof fn lemma_mixed_alike<V>(
    m: Meaning<V>,
    a: Attention,
    q: (Val, Val),
    fixed: (Val, Val),
    mask: Val,
    max_seq: usize,
    view: (Val, Val),
    lo: int,
    n: int,
    turn: int,
)
    requires
        m.masks() && m.mixes() && m.pairs_heads(),
        !a.use_flash_attn,
        m.same(q.0, 0, q.1, 0),
        view_of(m, fixed, view, lo, n, turn),
        forall|j: int|
            0 <= j ==> #[trigger] cell_blocked(mask.term, j) == Some(!(lo <= j <= n)),
    ensures
        m.same(
            a.step_mixed(q.0, fixed.0, fixed.1, mask, max_seq),
            0,
            a.mixed(q.1, view.0, view.1, None, 1, 1),
            0,
        ),
{
    let len = n + 1 - lo;
    let item = row_item(m, q.0, fixed.0, fixed.1);
    let ss = step_scores(a, q.0, fixed.0, mask, max_seq);
    assert forall|j: int| 0 <= j < m.len(fixed.1.term) implies #[trigger] shows(
        m,
        ss,
        fixed.1,
        0,
        j,
        item,
        (lo, n + 1),
    ) by {
        assert(cell_blocked(mask.term, j) == Some(!(lo <= j <= n)));
        lemma_step_score(m, a, q.0, fixed.0, mask, max_seq, j);
        let c = (m.score)(m.at(q.0.term, 0), m.at(fixed.0.term, j));
        if lo <= j <= n {
            assert((m.bin)(Op::BroadcastAdd, c, (m.cell)(false)) == c);
        } else {
            assert(m.cell_at(ss.term, 0, j) == (m.bin)(Op::BroadcastAdd, c, (m.cell)(true)));
            assert(blocked_score(m, m.cell_at(ss.term, 0, j)));
        }
    }
    let to = Some(fixed.0.dtype);
    lemma_sees(m, to, ss, fixed.1, 0, item, (lo, n + 1));
    let rep = Op::RepeatKv(a.num_kv_groups);
    let (kr, vr) = (un(rep, view.0), un(rep, view.1));
    let turned = Op::Transpose(2, 3);
    let ps = bin(Op::MatMul, q.1, un(turned, kr));
    let ring = |k: int| (m.cell_at(ps.term, 0, k), m.at(vr.term, k));
    lemma_un_extent(m, rep, view.1);
    assert forall|k: int| 0 <= k < m.len(vr.term) implies #[trigger] shows(
        m,
        ps,
        vr,
        0,
        k,
        ring,
        (0, len),
    ) by {}
    lemma_sees(m, None, ps, vr, 0, ring, (0, len));
    assert forall|k: int| 0 <= k < len implies #[trigger] rings(
        m,
        ring,
        item,
        lo,
        len,
        turn,
        k,
    ) by {
        assert(hands_out(m, view.0, fixed.0, lo, len, turn, k));
        assert(hands_out(m, view.1, fixed.1, lo, len, turn, k));
        lemma_cell_product(m, q.1, turned, kr, 0, k);
        assert(m.at(kr.term, k) == (m.un)(rep, m.at(view.0.term, k)) && m.at(vr.term, k) == (m.un)(
            rep,
            m.at(view.1.term, k),
        )) by {
            reveal(un);
        }
        let j = lo + (k + turn) % len;
        let (b, c) = (ring(k), item(j));
        assert(b.0 == (m.score)(m.at(q.1.term, 0), m.at(view.0.term, k)));
        assert(b.0 == c.0);
        assert forall|g: V| #[trigger] (m.gather)(g, b.0, b.1) == (m.gather)(g, c.0, c.1) by {
            assert((m.gather)(g, b.0, (m.un)(rep, m.at(view.1.term, k))) == (m.gather)(
                g,
                b.0,
                m.at(view.1.term, k),
            ));
        }
        assert(counts(m, b, c));
    }
    lemma_taken_ring(m, ring, item, lo, len, turn, m.nothing);
    let (os, op) = (attended(to, ss, fixed.1), attended(None, ps, vr));
    assert(m.same(os, 0, op, 0));
    let wide = Op::Reshape(d3(1, 1, sat_product(a.num_heads, a.head_dim)));
    let swap = Op::Transpose(1, 2);
    lemma_laid_out(m, wide, os, 0);
    lemma_laid_out(m, swap, op, 0);
    lemma_laid_out(m, wide, un(swap, op), 0);
    lemma_same_proj(m, a.o_proj, un(wide, os), 0, un(wide, un(swap, op)), 0);
    assert(a.step_mixed(q.0, fixed.0, fixed.1, mask, max_seq) == a.o_proj.apply(un(wide, os)));
}

/// A rotation looked up at the counted position is the rotation there.
pub proof fn lemma_same_turn<V>(m: Meaning<V>, r: RotaryEmbedding, x: Val, at: Val, n: usize)
    requires
        counted(at.term) == Some(n as int),
    ensures
        m.same(r.at_rows(x, at), 0, r.at_offset(x, n, 1), 0),
        m.len(r.at_offset(x, n, 1).term) == m.len(x.term),
        r.at_offset(x, n, 1).shape == x.shape,
{
    let row = |w: Weight| bin(Op::IndexSelect(0), leaf(Op::Param(w)), at);
    let slice = |w: Weight| un(Op::Narrow { dim: 0, start: n, len: 1 }, leaf(Op::Param(w)));
    lemma_counted_row(m, r.cos, at, 0);
    lemma_counted_row(m, r.sin, at, 0);
    lemma_looked_up(m, r.cos, n, 1, 0);
    lemma_looked_up(m, r.sin, n, 1, 0);
    lemma_same_tri(
        m,
        Op::Rope,
        (x, row(r.cos), row(r.sin)),
        0,
        (x, slice(r.cos), slice(r.sin)),
        0,
    );
    lemma_same_tri(
        m,
        Op::Rope,
        (x, slice(r.cos), slice(r.sin)),
        0,
        (x, slice(r.cos), slice(r.sin)),
        0,
    );
    reveal(crate::tape::tri);
}

/// What a cache hands out after one more position, from what it took in.
pub proof fn lemma_handed_out<V>(
    m: Meaning<V>,
    c: KvCache,
    content: Term,
    x: Val,
    buf: Buf,
    bufs: Bufs,
    k: int,
)
    requires
        bufs[buf.id as int] == Term::Bin(
            Op::CacheAppend { max_seq: c.max_seq, rotating: c.rotating },
            Box::new(content),
            Box::new(x.term),
        ),
        m.kept(content) == c.len,
        m.len(x.term) == 1,
        c.len < usize::MAX,
        c.rotating ==> c.max_seq > 0,
        0 <= k < c.view_len(1),
    ensures
        ({
            let t = bufs[buf.id as int];
            let view = un(Op::CacheView { len: c.view_len(1) }, held(bufs, buf));
            let len = c.view_len(1) as int;
            let j = c.len + 1 - len + m.handed(t, len, k);
            let turn = if c.rotating { (m.turn)(m.history(t)) } else { 0 };
            &&& m.len(view.term) == len
            &&& m.handed(t, len, k) == (k + turn) % len
            &&& 0 <= c.len + 1 - len <= j <= c.len
            &&& m.at(view.term, k) == m.at(t, j)
            &&& m.at(t, j) == (if j < c.len {
                m.at(content, j)
            } else {
                m.at(x.term, 0)
            })
        }),
{
    reveal(un);
    let t = bufs[buf.id as int];
    let len = c.view_len(1) as int;
    if c.rotating {
        vstd::arithmetic::div_mod::lemma_mod_bound(k + (m.turn)(m.history(t)), len);
    } else {
        vstd::arithmetic::div_mod::lemma_small_mod(k as nat, len as nat);
    }
    assert(m.len(t) == c.len + 1);
}

/// The first position that a cache hands out after one more.
pub open spec fn first_seen(c: KvCache) -> int {
    c.len + 1 - c.view_len(1)
}

/// A static buffer holds what a cache has taken in, as far as it hands it out
/// after one more position.
pub open spec fn holds_view<V>(m: Meaning<V>, c: KvCache, fixed: Term, content: Term) -> bool {
    &&& m.kept(content) == c.len
    &&& forall|j: int|
        first_seen(c) <= j < c.len ==> #[trigger] m.at(fixed, j) == m.at(content, j)
}

/// A replayed step attends as a pass over one token does: from static buffers and
/// a growing cache that hold the same, and at the position that the cache has
/// reached, the two give the same, and the buffers and the cache hold the same
/// afterwards. Masked rows, the order in which a rotating cache hands positions
/// out, and copies of heads make no difference to what is gathered.
pub proof fn law_step_attends_as_the_pass<V>(
    m: Meaning<V>,
    a: Attention,
    device: Device,
    x: Val,
    ctx: StaticCtx,
    kv: LayerKv,
    stepped: (Seq<Buf>, Bufs),
    eager: (Seq<Buf>, Bufs),
    shared: (Shared, Shared),
)
    requires
        m.masks() && m.mixes() && m.pairs_heads(),
        a.wf(),
        !a.is_kv_shared && !a.use_flash_attn,
        a.is_sliding == kv.cache.rotating,
        x.shape == d3(1, 1, x.shape.d2),
        m.len(x.term) == 1,
        kv.statics is Some && kv.cache.bufs is Some,
        kv.cache.len < a.rotary().rows(),
        kv.cache.rotating ==> kv.cache.max_seq > 0 && ctx.sliding_window > 0 && (kv.cache.max_seq
            == ctx.sliding_window + 1 || kv.cache.len < kv.cache.max_seq && kv.cache.len
            <= ctx.sliding_window),
        ({
            let (p, c) = (kv.statics->0, kv.cache.bufs->0);
            let (pk, pv) = (p.k.id, p.v.id);
            &&& pk != pv && c.k.id != c.v.id
            &&& pk != ctx.pos.id && pk != ctx.mask_global.id && pk != ctx.mask_sliding.id
            &&& pv != ctx.pos.id && pv != ctx.mask_global.id && pv != ctx.mask_sliding.id
            &&& ctx.mask_global.id != ctx.mask_sliding.id
            &&& ctx.mask_global.id != ctx.pos.id && ctx.mask_sliding.id != ctx.pos.id
            &&& counted(stepped.1[ctx.pos.id as int]) == Some(kv.cache.len as int)
            &&& kv.cache.len < m.len(stepped.1[pv as int])
            &&& holds_view(m, kv.cache, stepped.1[pk as int], eager.1[c.k.id as int])
            &&& holds_view(m, kv.cache, stepped.1[pv as int], eager.1[c.v.id as int])
            &&& m.history(eager.1[c.k.id as int]) == m.history(eager.1[c.v.id as int])
        }),
    ensures
        ctx.refreshed(device, stepped.1) matches Ok(b) ==> (a.step_pass(
            device,
            x,
            ctx,
            kv,
            stepped.0,
            b,
            shared.0,
        ) matches Ok(s) ==> {
            let (p, c) = (kv.statics->0, kv.cache.bufs->0);
            &&& a.pass(x, None, None, kv.cache.len, kv, eager.0, eager.1, shared.1) matches Ok(e)
            &&& m.same(s.out, 0, e.out, 0)
            &&& holds_view(m, e.kv.cache, s.bufs[p.k.id as int], e.bufs[c.k.id as int])
            &&& holds_view(m, e.kv.cache, s.bufs[p.v.id as int], e.bufs[c.v.id as int])
            &&& m.history(e.bufs[c.k.id as int]) == m.history(e.bufs[c.v.id as int])
            &&& a.store_full_length_kv ==> slots_alike(
                m,
                s.shared.slot(a.is_sliding),
                e.shared.slot(a.is_sliding),
                first_seen(kv.cache),
                kv.cache.len as int,
            )
        }),
{
    if let Ok(b) = ctx.refreshed(device, stepped.1) {
        if let Ok(s) = a.step_pass(device, x, ctx, kv, stepped.0, b, shared.0) {
            let (p, c) = (kv.statics->0, kv.cache.bufs->0);
            let (pk, pv) = (p.k.id as int, p.v.id as int);
            let n = kv.cache.len;
            let at = held(b, ctx.pos);
            assert(b[pk] == stepped.1[pk] && b[pv] == stepped.1[pv]);
            assert(at.term == stepped.1[ctx.pos.id as int]);
            let r = a.rotary();
            let row = Op::Reshape(d2(a.num_kv_heads, a.head_dim));
            let (q0, k0, v0) = (a.query(x, 1, 1), a.key(x, 1, 1), a.value(x, 1, 1));
            lemma_extents(m, a, x);
            lemma_same_turn(m, r, q0, at, n);
            lemma_same_turn(m, r, k0, at, n);
            let (qs, qe) = (r.at_rows(q0, at), r.at_offset(q0, n, 1));
            let (ks, ke) = (un(row, r.at_rows(k0, at)), r.at_offset(k0, n, 1));
            let vs = un(row, v0);
            lemma_laid_out(m, row, r.at_rows(k0, at), 0);
            lemma_laid_out(m, row, v0, 0);
            let e = a.pass(x, None, None, n, kv, eager.0, eager.1, shared.1)->Ok_0;
            let (fk, fv) = (held(s.bufs, p.k), held(s.bufs, p.v));
            let (ck, cv) = (eager.1[c.k.id as int], eager.1[c.v.id as int]);
            let (tk, tv) = (e.bufs[c.k.id as int], e.bufs[c.v.id as int]);
            let len = kv.cache.view_len(1) as int;
            let lo = first_seen(kv.cache);
            let op = Op::CacheView { len: kv.cache.view_len(1) };
            let view = (un(op, held(e.bufs, c.k)), un(op, held(e.bufs, c.v)));
            assert forall|j: int| lo <= j <= n implies #[trigger] m.at(fk.term, j) == m.at(tk, j)
                by {
                lemma_row_written(m, b[pk], ks.term, at.term, j);
                if j < n {
                    assert(m.at(stepped.1[pk], j) == m.at(ck, j));
                }
            }
            assert forall|j: int| lo <= j <= n implies #[trigger] m.at(fv.term, j) == m.at(tv, j)
                by {
                lemma_row_written(m, b[pv], vs.term, at.term, j);
                if j < n {
                    assert(m.at(stepped.1[pv], j) == m.at(cv, j));
                }
            }
            lemma_row_written(m, b[pv], vs.term, at.term, 0);
            let turn = if kv.cache.rotating { (m.turn)(m.history(tk)) } else { 0 };
            assert(m.history(tk) == m.history(ck).push(1) && m.history(tv) == m.history(cv).push(1));
            assert forall|k: int| 0 <= k < len implies #[trigger] hands_out(
                m,
                view.0,
                fk,
                lo,
                len,
                turn,
                k,
            ) by {
                lemma_handed_out(m, kv.cache, ck, ke, c.k, e.bufs, k);
            }
            assert forall|k: int| 0 <= k < len implies #[trigger] hands_out(
                m,
                view.1,
                fv,
                lo,
                len,
                turn,
                k,
            ) by {
                lemma_handed_out(m, kv.cache, cv, v0, c.v, e.bufs, k);
            }
            lemma_handed_out(m, kv.cache, cv, v0, c.v, e.bufs, 0);
            let mask = held(b, mask_of(a, ctx));
            assert forall|j: int| 0 <= j implies #[trigger] cell_blocked(mask.term, j) == Some(
                !(lo <= j <= n),
            ) by {
                law_step_mask_is_the_view(ctx, device, stepped.1, kv.cache, j);
            }
            assert(view_of(m, (fk, fv), view, lo, n as int, turn));
            if a.store_full_length_kv {
                assert(s.shared.slot(a.is_sliding) == Some((fk, fv)));
                assert(e.shared.slot(a.is_sliding) == Some(view));
                lemma_slots(m, (fk, fv), view, lo, n as int, turn);
            }
            lemma_mixed_alike(
                m,
                a,
                (qs, qe),
                (fk, fv),
                mask,
                ctx.max_seq,
                view,
                lo,
                n as int,
                turn,
            );
        }
    }
}

/// Keys and values that were stored for later layers: static buffers on the one
/// side, what a cache handed out on the other.
pub open spec fn slots_alike<V>(
    m: Meaning<V>,
    fixed: Option<(Val, Val)>,
    view: Option<(Val, Val)>,
    lo: int,
    n: int,
) -> bool {
    &&& fixed is Some && view is Some
    &&& exists|turn: int| #[trigger] view_of(m, fixed->0, view->0, lo, n, turn)
}

proof fn lemma_slots<V>(
    m: Meaning<V>,
    fixed: (Val, Val),
    view: (Val, Val),
    lo: int,
    n: int,
    turn: int,
)
    requires
        view_of(m, fixed, view, lo, n, turn),
    ensures
        slots_alike(m, Some(fixed), Some(view), lo, n),
{
    assert(view_of(m, Some(fixed)->0, Some(view)->0, lo, n, turn));
}

/// As [`law_step_attends_as_the_pass`], for a layer that reads the keys and values
/// of an earlier one: `c` is the cache of that one before the token.
pub proof fn law_sharing_step_attends_as_the_pass<V>(
    m: Meaning<V>,
    a: Attention,
    device: Device,
    x: Val,
    ctx: StaticCtx,
    kv: LayerKv,
    c: KvCache,
    stepped: (Seq<Buf>, Bufs),
    eager: (Seq<Buf>, Bufs),
    shared: (Shared, Shared),
)
    requires
        m.masks() && m.mixes() && m.pairs_heads(),
        a.is_kv_shared && !a.use_flash_attn,
        a.is_sliding == c.rotating,
        x.shape == d3(1, 1, x.shape.d2),
        c.len < a.rotary().rows(),
        c.rotating ==> ctx.sliding_window > 0 && (c.max_seq == ctx.sliding_window + 1 || c.len
            < c.max_seq && c.len <= ctx.sliding_window),
        ctx.mask_global.id != ctx.mask_sliding.id,
        ctx.mask_global.id != ctx.pos.id && ctx.mask_sliding.id != ctx.pos.id,
        counted(stepped.1[ctx.pos.id as int]) == Some(c.len as int),
        slots_alike(
            m,
            shared.0.slot(a.is_sliding),
            shared.1.slot(a.is_sliding),
            first_seen(c),
            c.len as int,
        ),
    ensures
        ctx.refreshed(device, stepped.1) matches Ok(b) ==> (a.step_pass(
            device,
            x,
            ctx,
            kv,
            stepped.0,
            b,
            shared.0,
        ) matches Ok(s) ==> {
            &&& a.pass(x, None, None, c.len, kv, eager.0, eager.1, shared.1) matches Ok(e)
            &&& m.same(s.out, 0, e.out, 0)
        }),
{
    if let Ok(b) = ctx.refreshed(device, stepped.1) {
        if let Ok(s) = a.step_pass(device, x, ctx, kv, stepped.0, b, shared.0) {
            let n = c.len;
            let at = held(b, ctx.pos);
            let q0 = a.query(x, 1, 1);
            lemma_same_turn(m, a.rotary(), q0, at, n);
            let q = (a.rotary().at_rows(q0, at), a.rotary().at_offset(q0, n, 1));
            let mask = held(b, mask_of(a, ctx));
            let lo = first_seen(c);
            assert forall|j: int| 0 <= j implies #[trigger] cell_blocked(mask.term, j) == Some(
                !(lo <= j <= n),
            ) by {
                law_step_mask_is_the_view(ctx, device, stepped.1, c, j);
            }
            let fixed = shared.0.slot(a.is_sliding)->0;
            let view = shared.1.slot(a.is_sliding)->0;
            let turn = choose|turn: int| #[trigger] view_of(m, fixed, view, lo, n as int, turn);
            lemma_mixed_alike(m, a, q, fixed, mask, ctx.max_seq, view, lo, n as int, turn);
        }
    }
}

/// Queries, keys and values of one token have one position.
pub(crate) proof fn lemma_extents<V>(m: Meaning<V>, a: Attention, x: Val)
    requires
        m.len(x.term) == 1,
    ensures
        m.len(a.key(x, 1, 1).term) == 1,
        m.len(a.value(x, 1, 1).term) == 1,
        a.key(x, 1, 1).shape.d2 == 1,
{
    let split = Op::Reshape(crate::shape::d4(1, 1, a.num_kv_heads, a.head_dim));
    let swap = Op::Transpose(1, 2);
    let kp = a.k_proj->0.apply(x);
    lemma_same_proj(m, a.k_proj->0, x, 0, x, 0);
    lemma_un_extent(m, split, kp);
    lemma_un_extent(m, swap, un(split, kp));
    let raw = a.key_raw(x, 1, 1);
    lemma_same_norm(m, a.k_norm->0, raw, 0, raw, 0);
    assert(raw.shape.d2 == 1) by {
        reveal(un);
    }
    if let Some(p) = a.v_proj {
        lemma_same_proj(m, p, x, 0, x, 0);
        lemma_un_extent(m, split, p.apply(x));
        lemma_un_extent(m, swap, un(split, p.apply(x)));
        let v = a.heads(p.apply(x), a.num_kv_heads, 1, 1);
        lemma_same_v_norm(m, a.rms_norm_eps, v, 0, v, 0);
    } else {
        lemma_same_v_norm(m, a.rms_norm_eps, raw, 0, raw, 0);
    }
}

/// A norm of the same is the same, and keeps positions, extents and element type.
pub(crate) proof fn lemma_same_norm<V>(m: Meaning<V>, n: RmsNorm, a: Val, i: int, b: Val, j: int)
    requires
        m.same(a, i, b, j),
        a.shape.last() == b.shape.last(),
        a.shape.rank == b.shape.rank,
        a.dtype == b.dtype,
    ensures
        m.same(n.apply(a), i, n.apply(b), j),
        m.len(n.apply(a).term) == m.len(a.term),
        n.apply(a).shape == a.shape,
        n.apply(a).dtype == a.dtype,
{
    let to = Op::ToDType(internal_dtype(a.dtype));
    let (wa, wb) = (un(to, a), un(to, b));
    lemma_same_un(m, to, a, i, b, j);
    assert(wa.shape == a.shape && wb.shape == b.shape && wa.dtype == wb.dtype) by {
        reveal(un);
    }
    let sum = Op::SumKeep(wa.shape.last_axis());
    let over = Op::DivScalar(Scalar::Int(a.shape.last()));
    let plus = Op::AddScalar(Scalar::F64(n.eps));
    lemma_same_un(m, Op::Sqr, wa, i, wb, j);
    let (sa, sb) = (un(Op::Sqr, wa), un(Op::Sqr, wb));
    lemma_same_un(m, sum, sa, i, sb, j);
    lemma_same_un(m, over, un(sum, sa), i, un(sum, sb), j);
    let (ma, mb) = (un(over, un(sum, sa)), un(over, un(sum, sb)));
    lemma_same_un(m, plus, ma, i, mb, j);
    lemma_same_un(m, Op::Sqrt, un(plus, ma), i, un(plus, mb), j);
    let (ra, rb) = (un(Op::Sqrt, un(plus, ma)), un(Op::Sqrt, un(plus, mb)));
    lemma_same_bin(m, Op::BroadcastDiv, (wa, ra), i, (wb, rb), j);
    let (na, nb) = (bin(Op::BroadcastDiv, wa, ra), bin(Op::BroadcastDiv, wb, rb));
    let back = Op::ToDType(a.dtype);
    lemma_same_un(m, back, na, i, nb, j);
    let w = leaf(Op::Param(n.weight));
    lemma_same_bin(m, Op::BroadcastMul, (un(back, na), w), i, (un(back, nb), w), j);
    lemma_un_extent(m, to, a);
    lemma_bin_extent(m, Op::BroadcastDiv, wa, ra);
    lemma_un_extent(m, back, na);
    lemma_bin_extent(m, Op::BroadcastMul, un(back, na), w);
    reveal(un);
    reveal(bin);
}

pub(crate) proof fn lemma_same_v_norm<V>(m: Meaning<V>, eps: u64, a: Val, i: int, b: Val, j: int)
    requires
        m.same(a, i, b, j),
        a.shape.rank == b.shape.rank,
        a.dtype == b.dtype,
    ensures
        m.same(v_normed(a, eps), i, v_normed(b, eps), j),
        m.len(v_normed(a, eps).term) == m.len(a.term),
        v_normed(a, eps).shape == a.shape,
        v_normed(a, eps).dtype == a.dtype,
{
    let to = Op::ToDType(DType::F32);
    let (wa, wb) = (un(to, a), un(to, b));
    lemma_same_un(m, to, a, i, b, j);
    assert(wa.shape == a.shape && wb.shape == b.shape) by {
        reveal(un);
    }
    lemma_same_rms(m, Scalar::F64(eps), wa, i, wb, j);
    let (ra, rb) = (
        rms_normalized(wa, Scalar::F64(eps)),
        rms_normalized(wb, Scalar::F64(eps)),
    );
    lemma_same_un(m, Op::ToDType(a.dtype), ra, i, rb, j);
    lemma_un_extent(m, to, a);
    lemma_un_extent(m, Op::ToDType(a.dtype), ra);
    reveal(un);
    reveal(bin);
}

} // verus!
