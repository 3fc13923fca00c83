//! What a step may remember.
use vstd::prelude::*;

use crate::dtype::Device;
use crate::layer_norm::LayerNorm;
use crate::loader::Proj;
use crate::positions::{
    lemma_bin_extent, lemma_counted_row, lemma_laid_out, lemma_row_written, lemma_same_bin,
    lemma_same_un, lemma_un_extent, Meaning,
};
use crate::qwen3_5::pieces::lemma_same_proj;
use crate::qwen3_5::rewind::{alike, lemma_alike_sum};
use crate::rows::cell_blocked;
use crate::shape::d3;
use crate::static_decode::{counted, linked, mask_row_effect, u32_effect};
use crate::tape::{bin, held, leaf, un, Buf, Bufs, Op, Term, Val};
use crate::whisper::agreement::{lemma_items_alike, lemma_step_sees, row_item, rows_hold, scale_of};
use crate::whisper::attention::{MhaState, MultiHeadAttention};
use crate::whisper::block::{BlockState, ResidualAttentionBlock, Stack};
use crate::whisper::model::{TextDecoder, WhisperStaticCtx};

verus! {

/// A block steps in buffer `id`: its own keys and values, which it writes, or
/// those of the encoder output, which it reads.
pub open spec fn uses(s: BlockState, id: int) -> bool {
    ||| s.attn.static_kv matches Some(p) && (p.k.id == id || p.v.id == id)
    ||| s.cross.cross_static matches Some(p) && (p.k.id == id || p.v.id == id)
}

/// A block writes buffer `id`.
pub open spec fn writes(s: BlockState, id: int) -> bool {
    s.attn.static_kv matches Some(p) && (p.k.id == id || p.v.id == id)
}

/// Everything that a step works in has a buffer of its own.
pub open spec fn own_buffers(states: Seq<BlockState>, ctx: WhisperStaticCtx) -> bool {
    &&& ctx.pos.id != ctx.mask.id && ctx.pos.id != ctx.cross_mask.id
    &&& ctx.mask.id != ctx.cross_mask.id && ctx.cross_len.id != ctx.pos.id
    &&& ctx.cross_len.id != ctx.mask.id && ctx.cross_len.id != ctx.cross_mask.id
    &&& forall|i: int|
        0 <= i < states.len() ==> {
            &&& !uses(#[trigger] states[i], ctx.pos.id as int)
            &&& !uses(states[i], ctx.mask.id as int)
            &&& !uses(states[i], ctx.cross_len.id as int)
            &&& !uses(states[i], ctx.cross_mask.id as int)
            &&& four_buffers(states[i])
        }
    &&& forall|i: int, j: int, id: int|
        0 <= i < states.len() && 0 <= j < states.len() && i != j && #[trigger] uses(states[i], id)
            ==> !(#[trigger] uses(states[j], id))
}

/// The buffers of a block are four.
pub open spec fn four_buffers(s: BlockState) -> bool {
    &&& s.attn.static_kv matches Some(p) ==> p.k.id != p.v.id
    &&& s.cross.cross_static matches Some(p) ==> p.k.id != p.v.id && !writes(s, p.k.id as int)
        && !writes(s, p.v.id as int)
}

/// Two pairs of buffers hold the same keys and values in the first `n` rows.
pub open spec fn pair_alike<V>(
    m: Meaning<V>,
    p: crate::kv_cache::KvBufs,
    n: int,
    a: Bufs,
    b: Bufs,
) -> bool {
    let (k, v) = (p.k.id as int, p.v.id as int);
    &&& m.len(a[v]) == m.len(b[v])
    &&& rows_hold(m, a[k], b[k], n)
    &&& rows_hold(m, a[v], b[v], n)
}

/// What a block steps in holds the same in two runs, as far as a query at position
/// `n` sees its own keys, and any query those of an encoder output of `c`
/// positions.
pub open spec fn kept_alike<V>(m: Meaning<V>, s: BlockState, n: int, c: int, a: Bufs, b: Bufs) -> bool {
    &&& s.attn.static_kv matches Some(p) ==> pair_alike(m, p, n, a, b)
    &&& s.cross.cross_static matches Some(p) ==> {
        &&& pair_alike(m, p, c, a, b)
        &&& c <= m.len(a[p.v.id as int])
    }
}

/// There is room for a row at position `n`.
pub open spec fn has_room<V>(m: Meaning<V>, s: BlockState, n: int, a: Bufs) -> bool {
    s.attn.static_kv matches Some(p) ==> n < m.len(a[p.v.id as int])
}

/// The position counts `n`, and the masks show what is not after it, and the `c`
/// positions of the encoder output.
pub open spec fn stands_at(ctx: WhisperStaticCtx, n: int, c: int, bufs: Bufs) -> bool {
    &&& counted(bufs[ctx.pos.id as int]) == Some(n)
    &&& forall|j: int| #[trigger] cell_blocked(bufs[ctx.mask.id as int], j) == Some(n < j)
    &&& forall|j: int| #[trigger] cell_blocked(bufs[ctx.cross_mask.id as int], j) == Some(c - 1 < j)
}

/// An operation on every position keeps two values alike.
pub(crate) proof fn lemma_alike_un<V>(m: Meaning<V>, op: Op, a: Val, b: Val)
    requires
        alike(m, a, b),
        !(op is Narrow) && !(op is CacheView),
    ensures
        alike(m, un(op, a), un(op, b)),
{
    lemma_same_un(m, op, a, 0, b, 0);
    lemma_un_extent(m, op, a);
    lemma_un_extent(m, op, b);
    reveal(un);
}

pub(crate) proof fn lemma_alike_proj<V>(m: Meaning<V>, p: Proj, a: Val, b: Val)
    requires
        alike(m, a, b),
    ensures
        alike(m, p.apply(a), p.apply(b)),
{
    lemma_same_proj(m, p, a, 0, b, 0);
    lemma_same_proj(m, p, b, 0, a, 0);
    reveal(un);
    reveal(bin);
}

/// Attention of a step over buffers that hold the same where it looks.
proof fn lemma_attention_alike<V>(
    m: Meaning<V>,
    a: MultiHeadAttention,
    q: (Val, Val),
    k: (Val, Val),
    v: (Val, Val),
    mask: (Val, Val),
    n: int,
)
    requires
        m.masks(),
        m.same(q.0, 0, q.1, 0),
        m.len(v.0.term) == m.len(v.1.term),
        0 <= n < m.len(v.0.term),
        rows_hold(m, k.0.term, k.1.term, n + 1),
        rows_hold(m, v.0.term, v.1.term, n + 1),
        forall|j: int| #[trigger] cell_blocked(mask.0.term, j) == Some(n < j),
        forall|j: int| #[trigger] cell_blocked(mask.1.term, j) == Some(n < j),
    ensures
        m.same(
            a.step_attended(q.0, k.0, v.0, mask.0),
            0,
            a.step_attended(q.1, k.1, v.1, mask.1),
            0,
        ),
{
    lemma_step_sees(m, a, q.0, k.0, v.0, mask.0, n);
    lemma_step_sees(m, a, q.1, k.1, v.1, mask.1, n);
    let scale = scale_of(a);
    let qv = m.at(q.0.term, 0);
    lemma_items_alike(m, scale, qv, (k.0.term, v.0.term), (k.1.term, v.1.term), n + 1);
    let i0 = row_item(m, scale, qv, k.0.term, v.0.term);
    let i1 = row_item(m, scale, qv, k.1.term, v.1.term);
    let w0 = choose|w: Val|
        #![trigger a.out.apply(w)]
        a.step_attended(q.0, k.0, v.0, mask.0) == a.out.apply(w) && m.at(w.term, 0) == (m.mean)(
            m.taken(i0, 0, n + 1, m.nothing),
        );
    let w1 = choose|w: Val|
        #![trigger a.out.apply(w)]
        a.step_attended(q.1, k.1, v.1, mask.1) == a.out.apply(w) && m.at(w.term, 0) == (m.mean)(
            m.taken(i1, 0, n + 1, m.nothing),
        );
    lemma_same_proj(m, a.out, w0, 0, w1, 0);
}

/// A block of a step, in two runs that hold the same where it looks.
proof fn lemma_block_alike<V>(
    m: Meaning<V>,
    l: ResidualAttentionBlock,
    device: Device,
    ctx: WhisperStaticCtx,
    n: int,
    c: int,
    x: (Val, Val),
    s: BlockState,
    a: Bufs,
    b: Bufs,
)
    requires
        m.masks(),
        alike(m, x.0, x.1),
        0 <= n,
        0 < c,
        stands_at(ctx, n, c, a) && stands_at(ctx, n, c, b),
        four_buffers(s),
        !uses(s, ctx.pos.id as int) && !uses(s, ctx.mask.id as int) && !uses(
            s,
            ctx.cross_mask.id as int,
        ),
        kept_alike(m, s, n, c, a, b),
        has_room(m, s, n, a),
    ensures
        match (
            l.step_pass(device, x.0, ctx.pos, ctx.mask, ctx.cross_mask, s, a),
            l.step_pass(device, x.1, ctx.pos, ctx.mask, ctx.cross_mask, s, b),
        ) {
            (Ok((y, p)), Ok((z, q))) => {
                &&& alike(m, y, z)
                &&& kept_alike(m, s, n + 1, c, p, q)
                &&& forall|id: int| !writes(s, id) ==> #[trigger] p[id] == a[id]
                &&& forall|id: int| !writes(s, id) ==> #[trigger] q[id] == b[id]
                &&& s.attn.static_kv matches Some(k) ==> m.len(p[k.v.id as int]) == m.len(
                    a[k.v.id as int],
                )
            },
            (Err(d), Err(e)) => d.error == e.error,
            _ => false,
        },
{
    reveal(ResidualAttentionBlock::step_pass);
    let (pos, mask) = (ctx.pos, ctx.mask);
    let norm = |ln: LayerNorm|
        Op::LayerNorm(
            ln.weight,
            ln.bias,
            crate::tape::Scalar::F32(crate::layer_norm::NORM_EPS),
        );
    lemma_alike_un(m, norm(l.attn_ln), x.0, x.1);
    let h = (l.attn_ln.apply(x.0), l.attn_ln.apply(x.1));
    let at = l.attn;
    lemma_alike_proj(m, at.query, h.0, h.1);
    lemma_alike_proj(m, at.key, h.0, h.1);
    lemma_alike_proj(m, at.value, h.0, h.1);
    if let Some(p) = s.attn.static_kv {
        let (pk, pv) = (p.k.id as int, p.v.id as int);
        assert(uses(s, pk) && uses(s, pv));
        let row = Op::Reshape(d3(at.n_head, 1, at.head_dim_spec()));
        let (ka, kb) = (un(row, at.key.apply(h.0)), un(row, at.key.apply(h.1)));
        let (va, vb) = (un(row, at.value.apply(h.0)), un(row, at.value.apply(h.1)));
        lemma_alike_un(m, row, at.key.apply(h.0), at.key.apply(h.1));
        lemma_alike_un(m, row, at.value.apply(h.0), at.value.apply(h.1));
        let r = at.self_step(device, h.0, pos, mask, s.attn, a);
        let t = at.self_step(device, h.1, pos, mask, s.attn, b);
        if r is Ok {
            let (r, t) = (r->Ok_0, t->Ok_0);
            let (fa, fb) = (r.1, t.1);
            assert forall|j: int| 0 <= j < n + 1 implies #[trigger] m.at(fa[pk], j) == m.at(
                fb[pk],
                j,
            ) by {
                lemma_row_written(m, a[pk], ka.term, a[pos.id as int], j);
                lemma_row_written(m, b[pk], kb.term, b[pos.id as int], j);
                assert(j < n ==> m.at(a[pk], j) == m.at(b[pk], j));
            }
            assert forall|j: int| 0 <= j < n + 1 implies #[trigger] m.at(fa[pv], j) == m.at(
                fb[pv],
                j,
            ) by {
                lemma_row_written(m, a[pv], va.term, a[pos.id as int], j);
                lemma_row_written(m, b[pv], vb.term, b[pos.id as int], j);
                assert(j < n ==> m.at(a[pv], j) == m.at(b[pv], j));
            }
            lemma_row_written(m, a[pv], va.term, a[pos.id as int], 0);
            lemma_row_written(m, b[pv], vb.term, b[pos.id as int], 0);
            lemma_attention_alike(
                m,
                at,
                (at.query.apply(h.0), at.query.apply(h.1)),
                (held(fa, p.k), held(fb, p.k)),
                (held(fa, p.v), held(fb, p.v)),
                (held(fa, mask), held(fb, mask)),
                n,
            );
            lemma_alike_sum(m, x, (r.0, t.0));
            let y = (bin(Op::Add, x.0, r.0), bin(Op::Add, x.1, t.0));
            if let Some(ca) = l.cross_attn {
                lemma_alike_un(m, norm(ca.ln), y.0, y.1);
                let g = (ca.ln.apply(y.0), ca.ln.apply(y.1));
                if let Some(cp) = s.cross.cross_static {
                    lemma_alike_proj(m, ca.attn.query, g.0, g.1);
                    assert(uses(s, cp.k.id as int) && uses(s, cp.v.id as int));
                    assert(fa[cp.k.id as int] == a[cp.k.id as int] && fb[cp.k.id as int]
                        == b[cp.k.id as int]);
                    assert(fa[cp.v.id as int] == a[cp.v.id as int] && fb[cp.v.id as int]
                        == b[cp.v.id as int]);
                    lemma_attention_alike(
                        m,
                        ca.attn,
                        (ca.attn.query.apply(g.0), ca.attn.query.apply(g.1)),
                        (held(fa, cp.k), held(fb, cp.k)),
                        (held(fa, cp.v), held(fb, cp.v)),
                        (held(fa, ctx.cross_mask), held(fb, ctx.cross_mask)),
                        c - 1,
                    );
                    let w = (
                        ca.attn.cross_step(g.0, ctx.cross_mask, s.cross, fa)->Ok_0,
                        ca.attn.cross_step(g.1, ctx.cross_mask, s.cross, fb)->Ok_0,
                    );
                    lemma_alike_sum(m, y, w);
                    lemma_fed_alike(m, l, bin(Op::Add, y.0, w.0), bin(Op::Add, y.1, w.1));
                }
            } else {
                lemma_fed_alike(m, l, y.0, y.1);
            }
        }
    }
}

pub(crate) proof fn lemma_fed_alike<V>(m: Meaning<V>, l: ResidualAttentionBlock, a: Val, b: Val)
    requires
        alike(m, a, b),
    ensures
        alike(m, l.fed(a), l.fed(b)),
{
    let norm = Op::LayerNorm(
        l.mlp_ln.weight,
        l.mlp_ln.bias,
        crate::tape::Scalar::F32(crate::layer_norm::NORM_EPS),
    );
    lemma_alike_un(m, norm, a, b);
    let (na, nb) = (l.mlp_ln.apply(a), l.mlp_ln.apply(b));
    lemma_alike_proj(m, l.mlp_linear1, na, nb);
    let (ha, hb) = (l.mlp_linear1.apply(na), l.mlp_linear1.apply(nb));
    lemma_alike_un(m, Op::Gelu, ha, hb);
    lemma_alike_proj(m, l.mlp_linear2, un(Op::Gelu, ha), un(Op::Gelu, hb));
    lemma_alike_sum(
        m,
        (a, b),
        (
            l.mlp_linear2.apply(un(Op::Gelu, ha)),
            l.mlp_linear2.apply(un(Op::Gelu, hb)),
        ),
    );
}

/// Two runs stand at position `n` with the first `i` blocks done with it.
pub open spec fn runs_alike<V>(
    m: Meaning<V>,
    states: Seq<BlockState>,
    ctx: WhisperStaticCtx,
    i: int,
    n: int,
    c: int,
    a: Bufs,
    b: Bufs,
) -> bool {
    &&& stands_at(ctx, n, c, a) && stands_at(ctx, n, c, b)
    &&& forall|j: int|
        0 <= j < states.len() ==> kept_alike(
            m,
            #[trigger] states[j],
            if j < i {
                n + 1
            } else {
                n
            },
            c,
            a,
            b,
        ) && has_room(m, states[j], n, a)
}

/// Between two steps: two runs whose next position is `n`, with the same encoder
/// output of `c` positions, hold the same as far as it can see.
pub open spec fn rests_alike<V>(
    m: Meaning<V>,
    states: Seq<BlockState>,
    ctx: WhisperStaticCtx,
    n: int,
    c: int,
    a: Bufs,
    b: Bufs,
) -> bool {
    &&& counted(a[ctx.pos.id as int]) == Some(n)
    &&& counted(b[ctx.pos.id as int]) == Some(n)
    &&& forall|j: int| #[trigger] cell_blocked(a[ctx.cross_mask.id as int], j) == Some(c - 1 < j)
    &&& forall|j: int| #[trigger] cell_blocked(b[ctx.cross_mask.id as int], j) == Some(c - 1 < j)
    &&& forall|j: int| 0 <= j < states.len() ==> kept_alike(m, #[trigger] states[j], n, c, a, b)
}

/// Every block has room for a row at position `n`.
pub open spec fn all_room<V>(m: Meaning<V>, states: Seq<BlockState>, n: int, a: Bufs) -> bool {
    forall|j: int| 0 <= j < states.len() ==> has_room(m, #[trigger] states[j], n, a)
}

/// Only what a block steps in matters to it.
proof fn lemma_kept_frame<V>(
    m: Meaning<V>,
    s: BlockState,
    n: int,
    c: int,
    a: (Bufs, Bufs),
    b: (Bufs, Bufs),
)
    requires
        kept_alike(m, s, n, c, a.0, b.0),
        forall|id: int| #[trigger] uses(s, id) ==> a.0[id] == a.1[id] && b.0[id] == b.1[id],
    ensures
        kept_alike(m, s, n, c, a.1, b.1),
        forall|k: int| has_room(m, s, k, a.0) ==> #[trigger] has_room(m, s, k, a.1),
{
    if let Some(p) = s.attn.static_kv {
        assert(uses(s, p.k.id as int) && uses(s, p.v.id as int));
    }
    if let Some(p) = s.cross.cross_static {
        assert(uses(s, p.k.id as int) && uses(s, p.v.id as int));
    }
}

/// The first `i` blocks of a step, in two runs that hold the same where it looks.
proof fn lemma_stack_alike<V>(
    m: Meaning<V>,
    t: Stack,
    device: Device,
    ctx: WhisperStaticCtx,
    n: int,
    c: int,
    x: (Val, Val),
    a: Bufs,
    b: Bufs,
    i: int,
)
    requires
        m.masks(),
        t.wf(),
        own_buffers(t.states@, ctx),
        0 <= i <= t.blocks.len(),
        0 <= n,
        0 < c,
        alike(m, x.0, x.1),
        runs_alike(m, t.states@, ctx, 0, n, c, a, b),
    ensures
        match (
            t.step(device, x.0, ctx.pos, ctx.mask, ctx.cross_mask, a, i),
            t.step(device, x.1, ctx.pos, ctx.mask, ctx.cross_mask, b, i),
        ) {
            (Ok((y, p)), Ok((z, q))) => {
                &&& alike(m, y, z)
                &&& runs_alike(m, t.states@, ctx, i, n, c, p, q)
            },
            (Err(d), Err(e)) => d.error == e.error,
            _ => false,
        },
    decreases i,
{
    if i > 0 {
        lemma_stack_alike(m, t, device, ctx, n, c, x, a, b, i - 1);
        let states = t.states@;
        let r = t.step(device, x.0, ctx.pos, ctx.mask, ctx.cross_mask, a, i - 1);
        let u = t.step(device, x.1, ctx.pos, ctx.mask, ctx.cross_mask, b, i - 1);
        if r is Ok {
            let (y, p) = r->Ok_0;
            let (z, q) = u->Ok_0;
            let s = states[i - 1];
            let l = t.blocks[i - 1];
            assert(kept_alike(m, s, n, c, p, q));
            lemma_block_alike(m, l, device, ctx, n, c, (y, z), s, p, q);
            let r2 = l.step_pass(device, y, ctx.pos, ctx.mask, ctx.cross_mask, s, p);
            let u2 = l.step_pass(device, z, ctx.pos, ctx.mask, ctx.cross_mask, s, q);
            if r2 is Ok {
                let (p2, q2) = (r2->Ok_0.1, u2->Ok_0.1);
                assert(!writes(s, ctx.pos.id as int) && !writes(s, ctx.mask.id as int) && !writes(
                    s,
                    ctx.cross_mask.id as int,
                )) by {
                    assert(!uses(s, ctx.pos.id as int));
                }
                assert forall|j: int| 0 <= j < states.len() implies kept_alike(
                    m,
                    #[trigger] states[j],
                    if j < i {
                        n + 1
                    } else {
                        n
                    },
                    c,
                    p2,
                    q2,
                ) && has_room(m, states[j], n, p2) by {
                    if j != i - 1 {
                        assert forall|id: int| #[trigger] uses(states[j], id) implies p[id]
                            == p2[id] && q[id] == q2[id] by {
                            assert(!uses(states[i - 1], id));
                            assert(!writes(s, id));
                            assert(p2[id] == p[id] && q2[id] == q[id]);
                        }
                        let k = if j < i - 1 {
                            n + 1
                        } else {
                            n
                        };
                        lemma_kept_frame(m, states[j], k, c, (p, p2), (q, q2));
                        assert(has_room(m, states[j], n, p));
                    }
                }
            }
        }
    }
}

/// A step depends on what its position can see, and on nothing else: from buffers
/// that agree on that, two runs end alike, and leave alike what the next step
/// sees.
pub proof fn law_step_depends_on_what_it_sees<V>(
    m: Meaning<V>,
    d: TextDecoder,
    device: Device,
    token: Val,
    n: int,
    c: int,
    a: Bufs,
    b: Bufs,
)
    requires
        m.masks(),
        d.wf(),
        d.static_ctx matches Some(ctx) && own_buffers(d.stack.states@, ctx),
        m.len(token.term) == 1,
        0 <= n,
        0 < c,
        rests_alike(m, d.stack.states@, d.static_ctx->0, n, c, a, b),
        all_room(m, d.stack.states@, n, a),
    ensures
        match (d.step_pass(device, token, a), d.step_pass(device, token, b)) {
            (Ok((y, p)), Ok((z, q))) => {
                &&& m.same(y, 0, z, 0)
                &&& n + 1 < 0x1_0000_0000 ==> rests_alike(
                    m,
                    d.stack.states@,
                    d.static_ctx->0,
                    n + 1,
                    c,
                    p,
                    q,
                )
            },
            (Err(x), Err(y)) => x.error == y.error,
            _ => false,
        },
{
    let ctx = d.static_ctx->0;
    let states = d.stack.states@;
    let (pos, mask) = (ctx.pos.id as int, ctx.mask.id as int);
    let p = linked(a, mask_row_effect(device, a, ctx.mask, ctx.pos, 0));
    let q = linked(b, mask_row_effect(device, b, ctx.mask, ctx.pos, 0));
    if p is Ok {
        let (p, q) = (p->Ok_0, q->Ok_0);
        assert forall|j: int| 0 <= j < states.len() implies kept_alike(
            m,
            #[trigger] states[j],
            n,
            c,
            p,
            q,
        ) && has_room(m, states[j], n, p) by {
            assert(!uses(states[j], mask));
            lemma_kept_frame(m, states[j], n, c, (a, p), (b, q));
            assert(has_room(m, states[j], n, a));
        }
        let x = (d.placed(token, held(p, ctx.pos)), d.placed(token, held(q, ctx.pos)));
        lemma_placed_alike(m, d, token, held(p, ctx.pos), held(q, ctx.pos));
        let blocks = d.stack.blocks.len() as int;
        lemma_stack_alike(m, d.stack, device, ctx, n, c, x, p, q, blocks);
        let r = d.stack.step(device, x.0, ctx.pos, ctx.mask, ctx.cross_mask, p, blocks);
        let u = d.stack.step(device, x.1, ctx.pos, ctx.mask, ctx.cross_mask, q, blocks);
        if r is Ok {
            let (y, f) = r->Ok_0;
            let (z, g) = u->Ok_0;
            let norm = Op::LayerNorm(
                d.ln.weight,
                d.ln.bias,
                crate::tape::Scalar::F32(crate::layer_norm::NORM_EPS),
            );
            lemma_alike_un(m, norm, y, z);
            let (f2, g2) = (
                f.insert(pos, Term::Un(Op::AddU32(1), Box::new(f[pos]))),
                g.insert(pos, Term::Un(Op::AddU32(1), Box::new(g[pos]))),
            );
            assert forall|j: int| 0 <= j < states.len() implies kept_alike(
                m,
                #[trigger] states[j],
                n + 1,
                c,
                f2,
                g2,
            ) by {
                assert(!uses(states[j], pos));
                lemma_kept_frame(m, states[j], n + 1, c, (f, f2), (g, g2));
            }
        }
    }
}

/// A token with the position that counts the same.
proof fn lemma_placed_alike<V>(m: Meaning<V>, d: TextDecoder, token: Val, p: Val, q: Val)
    requires
        m.len(token.term) == 1,
        p.shape == q.shape && p.dtype == q.dtype,
        counted(p.term) is Some && counted(p.term) == counted(q.term),
    ensures
        alike(m, d.placed(token, p), d.placed(token, q)),
{
    let e = un(Op::Embedding(d.token_embedding), token);
    let up = Op::Unsqueeze(0);
    let table = leaf(Op::Param(d.positional_embedding));
    let (rp, rq) = (bin(Op::IndexSelect(0), table, p), bin(Op::IndexSelect(0), table, q));
    lemma_counted_row(m, d.positional_embedding, p, 0);
    lemma_counted_row(m, d.positional_embedding, q, 0);
    lemma_laid_out(m, up, rp, 0);
    lemma_laid_out(m, up, rq, 0);
    lemma_same_bin(m, Op::BroadcastAdd, (e, un(up, rp)), 0, (e, un(up, rq)), 0);
    lemma_un_extent(m, Op::Embedding(d.token_embedding), token);
    lemma_bin_extent(m, Op::BroadcastAdd, e, un(up, rp));
    lemma_bin_extent(m, Op::BroadcastAdd, e, un(up, rq));
    reveal(bin);
}

/// The encoder output's keys and values hold the same in two runs.
pub open spec fn cross_alike<V>(
    m: Meaning<V>,
    states: Seq<BlockState>,
    ctx: WhisperStaticCtx,
    c: int,
    a: Bufs,
    b: Bufs,
) -> bool {
    &&& forall|j: int| #[trigger] cell_blocked(a[ctx.cross_mask.id as int], j) == Some(c - 1 < j)
    &&& forall|j: int| #[trigger] cell_blocked(b[ctx.cross_mask.id as int], j) == Some(c - 1 < j)
    &&& forall|i: int|
        0 <= i < states.len() ==> ((#[trigger] states[i]).cross.cross_static matches Some(p) ==> {
            &&& pair_alike(m, p, c, a, b)
            &&& c <= m.len(a[p.v.id as int])
        })
}

/// The buffers of keys and values have as many rows in both runs.
pub open spec fn same_rows<V>(m: Meaning<V>, states: Seq<BlockState>, a: Bufs, b: Bufs) -> bool {
    forall|i: int|
        0 <= i < states.len() ==> ((#[trigger] states[i]).attn.static_kv matches Some(p) ==> {
            let v = p.v.id as int;
            m.len(a[v]) == m.len(b[v]) && 0 < m.len(a[v])
        })
}

/// After rewinding, a step sees nothing of the segment before: whatever the
/// buffers of the two runs held of their own keys and values, with the same
/// encoder output they give the same from here on.
pub proof fn law_reset_forgets_the_segment<V>(
    m: Meaning<V>,
    d: TextDecoder,
    device: Device,
    token: Val,
    c: int,
    used: Bufs,
    other: Bufs,
)
    requires
        m.masks(),
        d.wf(),
        d.static_ctx matches Some(ctx) && own_buffers(d.stack.states@, ctx),
        m.len(token.term) == 1,
        0 < c,
        cross_alike(m, d.stack.states@, d.static_ctx->0, c, used, other),
        same_rows(m, d.stack.states@, used, other),
    ensures
        u32_effect(device, used, d.static_ctx->0.pos, 0) matches Ok(a) ==> {
            let b = u32_effect(device, other, d.static_ctx->0.pos, 0)->Ok_0;
            &&& rests_alike(m, d.stack.states@, d.static_ctx->0, 0, c, a, b)
            &&& match (d.step_pass(device, token, a), d.step_pass(device, token, b)) {
                (Ok((y, p)), Ok((z, q))) => {
                    &&& m.same(y, 0, z, 0)
                    &&& rests_alike(m, d.stack.states@, d.static_ctx->0, 1, c, p, q)
                },
                (Err(x), Err(y)) => x.error == y.error,
                _ => false,
            }
        },
{
    let ctx = d.static_ctx->0;
    let states = d.stack.states@;
    let pos = ctx.pos.id as int;
    if let Ok(a) = u32_effect(device, used, ctx.pos, 0) {
        let b = u32_effect(device, other, ctx.pos, 0)->Ok_0;
        assert forall|j: int| 0 <= j < states.len() implies kept_alike(
            m,
            #[trigger] states[j],
            0,
            c,
            a,
            b,
        ) && has_room(m, states[j], 0, a) by {
            assert(!uses(states[j], pos));
            let s = states[j];
            assert(s.cross.cross_static matches Some(p) ==> pair_alike(m, p, c, used, other));
            assert(kept_alike(m, s, 0, c, used, other));
            lemma_kept_frame(m, s, 0, c, (used, a), (other, b));
            assert(has_room(m, s, 0, used));
        }
        law_step_depends_on_what_it_sees(m, d, device, token, 0, c, a, b);
    }
}

/// Every block attends to the encoder output, in buffers that are there and that
/// hold as many rows as they have.
pub open spec fn cross_ready<V>(m: Meaning<V>, t: Stack, a: Bufs, b: Bufs) -> bool {
    forall|i: int|
        0 <= i < t.states.len() ==> {
            &&& t.blocks[i].cross_attn is Some
            &&& (#[trigger] t.states@[i]).cross.cross_static matches Some(p)
            &&& m.len(a[p.v.id as int]) == p.v.shape.d1
            &&& m.len(b[p.v.id as int]) == p.v.shape.d1
        }
}

/// Rows written from the first on.
proof fn lemma_rows_laid<V>(m: Meaning<V>, c: Term, x: Term, n: usize, j: int)
    ensures
        ({
            let t = Term::Bin(Op::KvRows { pos: 0, len: n }, Box::new(c), Box::new(x));
            &&& m.len(t) == m.len(c)
            &&& 0 <= j < n ==> m.at(t, j) == m.at(x, j)
        }),
{
}

/// The encoder output in the buffers of one block, in two runs.
proof fn lemma_block_crossed<V>(
    m: Meaning<V>,
    a: MultiHeadAttention,
    device: Device,
    xa: Val,
    max_actx: usize,
    s: MhaState,
    u: (Seq<Buf>, Seq<Buf>),
    p: Bufs,
    q: Bufs,
)
    requires
        a.wf(),
        xa.shape.rank == 3,
        s.cross_static matches Some(b) && b.k.id != b.v.id && m.len(p[b.v.id as int])
            == b.v.shape.d1 && m.len(q[b.v.id as int]) == b.v.shape.d1,
    ensures
        match (
            a.crossed(device, xa, max_actx, s, u.0, p),
            a.crossed(device, xa, max_actx, s, u.1, q),
        ) {
            (Ok((n, s1, u1, f)), Ok((k, s2, u2, g))) => {
                let b = s.cross_static->0;
                &&& n == xa.shape.d1 && k == n
                &&& n <= max_actx
                &&& s1 == s && s2 == s && u1 == u.0 && u2 == u.1
                &&& pair_alike(m, b, n as int, f, g)
                &&& n <= m.len(f[b.v.id as int])
                &&& forall|id: int| id != b.k.id && id != b.v.id ==> #[trigger] f[id] == p[id]
                &&& forall|id: int| id != b.k.id && id != b.v.id ==> #[trigger] g[id] == q[id]
            },
            (Err(d), Err(e)) => d.error == e.error,
            _ => false,
        },
{
    let b = s.cross_static->0;
    let (k, v) = (a.headed(a.key.apply(xa)), a.headed(a.value.apply(xa)));
    assert(a.key.apply(xa).shape.d1 == xa.shape.d1 && a.value.apply(xa).shape.d1 == xa.shape.d1)
        by {
        reveal(un);
        reveal(bin);
    }
    assert(k.shape.d2 == xa.shape.d1 && v.shape.d2 == xa.shape.d1) by {
        reveal(un);
    }
    let n = k.shape.d2;
    let rows = Op::Reshape(d3(a.n_head, n, a.head_dim_spec()));
    let (kr, vr) = (un(rows, k), un(rows, v));
    assert(kr.shape.d1 == n && vr.shape.d1 == n) by {
        reveal(un);
    }
    let r = a.crossed(device, xa, max_actx, s, u.0, p);
    if r is Ok {
        let t = a.crossed(device, xa, max_actx, s, u.1, q);
        let (f, g) = (r->Ok_0.3, t->Ok_0.3);
        let (bk, bv) = (b.k.id as int, b.v.id as int);
        assert(s == (MhaState { cross_static: Some(b), ..s }));
        assert forall|j: int| 0 <= j < n implies #[trigger] m.at(f[bk], j) == m.at(g[bk], j) by {
            lemma_rows_laid(m, p[bk], kr.term, n, j);
            lemma_rows_laid(m, q[bk], kr.term, n, j);
        }
        assert forall|j: int| 0 <= j < n implies #[trigger] m.at(f[bv], j) == m.at(g[bv], j) by {
            lemma_rows_laid(m, p[bv], vr.term, n, j);
            lemma_rows_laid(m, q[bv], vr.term, n, j);
        }
        lemma_rows_laid(m, p[bv], vr.term, n, 0);
        lemma_rows_laid(m, q[bv], vr.term, n, 0);
    }
}

/// The encoder output in the buffers of the first `i` blocks, in two runs.
proof fn lemma_stack_crossed<V>(
    m: Meaning<V>,
    t: Stack,
    ctx: WhisperStaticCtx,
    device: Device,
    xa: Val,
    u: (Seq<Buf>, Seq<Buf>),
    a: Bufs,
    b: Bufs,
    i: int,
)
    requires
        t.wf(),
        own_buffers(t.states@, ctx),
        cross_ready(m, t, a, b),
        xa.shape.rank == 3,
        xa.shape.d1 > 0,
        0 <= i <= t.blocks.len(),
    ensures
        match (
            t.crossed(device, xa, ctx.max_actx, u.0, a, i),
            t.crossed(device, xa, ctx.max_actx, u.1, b, i),
        ) {
            (Ok((n, s1, u1, f)), Ok((k, s2, u2, g))) => {
                &&& n == k && n == (if i > 0 { xa.shape.d1 } else { 0 })
                &&& n <= ctx.max_actx
                &&& s1 == t.states@ && s2 == t.states@ && u1 == u.0 && u2 == u.1
                &&& cross_ready(m, t, f, g)
                &&& forall|j: int|
                    0 <= j < i ==> pair_alike(
                        m,
                        (#[trigger] t.states@[j]).cross.cross_static->0,
                        xa.shape.d1 as int,
                        f,
                        g,
                    ) && xa.shape.d1 <= m.len(f[t.states@[j].cross.cross_static->0.v.id as int])
                &&& forall|id: int|
                    (forall|j: int| 0 <= j < i ==> !uses(#[trigger] t.states@[j], id))
                        ==> #[trigger] f[id] == a[id] && g[id] == b[id]
                &&& forall|j: int|
                    0 <= j < t.states.len() ==> ((#[trigger] t.states@[j]).attn.static_kv matches Some(
                        p,
                    ) ==> f[p.v.id as int] == a[p.v.id as int] && g[p.v.id as int]
                        == b[p.v.id as int])
            },
            (Err(d), Err(e)) => d.error == e.error,
            _ => false,
        },
    decreases i,
{
    if i > 0 {
        lemma_stack_crossed(m, t, ctx, device, xa, u, a, b, i - 1);
        let r = t.crossed(device, xa, ctx.max_actx, u.0, a, i - 1);
        let w = t.crossed(device, xa, ctx.max_actx, u.1, b, i - 1);
        if r is Ok {
            let (f, g) = (r->Ok_0.3, w->Ok_0.3);
            let states = t.states@;
            let s = states[i - 1];
            let at = t.blocks[i - 1].cross_attn->0.attn;
            let p = s.cross.cross_static->0;
            assert(four_buffers(s));
            assert(at.wf());
            lemma_block_crossed(m, at, device, xa, ctx.max_actx, s.cross, u, f, g);
            let r2 = at.crossed(device, xa, ctx.max_actx, s.cross, u.0, f);
            let w2 = at.crossed(device, xa, ctx.max_actx, s.cross, u.1, g);
            if r2 is Ok {
                let (f2, g2) = (r2->Ok_0.3, w2->Ok_0.3);
                assert(states.update(i - 1, s) =~= states);
                assert(uses(s, p.k.id as int) && uses(s, p.v.id as int));
                assert forall|j: int| 0 <= j < states.len() implies {
                    &&& t.blocks[j].cross_attn is Some
                    &&& (#[trigger] states[j]).cross.cross_static matches Some(o)
                    &&& m.len(f2[o.v.id as int]) == o.v.shape.d1
                    &&& m.len(g2[o.v.id as int]) == o.v.shape.d1
                } by {
                    let o = states[j].cross.cross_static->0;
                    if j != i - 1 {
                        assert(uses(states[j], o.v.id as int));
                        assert(!uses(s, o.v.id as int));
                    } else {
                        let n = xa.shape.d1;
                        assert(m.len(f2[p.v.id as int]) == m.len(f[p.v.id as int]));
                    }
                }
                assert forall|j: int| 0 <= j < i implies pair_alike(
                    m,
                    (#[trigger] states[j]).cross.cross_static->0,
                    xa.shape.d1 as int,
                    f2,
                    g2,
                ) && xa.shape.d1 <= m.len(f2[states[j].cross.cross_static->0.v.id as int]) by {
                    let o = states[j].cross.cross_static->0;
                    if j != i - 1 {
                        assert(uses(states[j], o.v.id as int) && uses(states[j], o.k.id as int));
                        assert(!uses(s, o.v.id as int) && !uses(s, o.k.id as int));
                        assert(f2[o.k.id as int] == f[o.k.id as int]);
                        assert(g2[o.k.id as int] == g[o.k.id as int]);
                        assert(f2[o.v.id as int] == f[o.v.id as int]);
                        assert(g2[o.v.id as int] == g[o.v.id as int]);
                    }
                }
                assert forall|id: int|
                    (forall|j: int| 0 <= j < i ==> !uses(#[trigger] states[j], id)) implies
                    #[trigger] f2[id] == a[id] && g2[id] == b[id] by {
                    assert(!uses(states[i - 1], id));
                    assert(f2[id] == f[id] && g2[id] == g[id]);
                }
                assert forall|j: int| 0 <= j < states.len() implies ((
                #[trigger] states[j]).attn.static_kv matches Some(o) ==> f2[o.v.id as int]
                    == a[o.v.id as int] && g2[o.v.id as int] == b[o.v.id as int]) by {
                    if let Some(o) = states[j].attn.static_kv {
                        assert(uses(states[j], o.v.id as int));
                        if j != i - 1 {
                            assert(!uses(s, o.v.id as int));
                        } else {
                            assert(writes(s, o.v.id as int));
                        }
                        assert(f2[o.v.id as int] == f[o.v.id as int]);
                        assert(g2[o.v.id as int] == g[o.v.id as int]);
                    }
                }
            }
        }
    }
}

/// Taking a new encoder output in leaves nothing of the one before in sight: the
/// two runs hold the same of it afterwards, whatever they held.
pub proof fn law_prepared_output_is_all_there_is<V>(
    m: Meaning<V>,
    d: TextDecoder,
    device: Device,
    xa: Val,
    u: (Seq<Buf>, Seq<Buf>),
    used: Bufs,
    other: Bufs,
)
    requires
        d.wf(),
        d.static_ctx matches Some(ctx) && own_buffers(d.stack.states@, ctx) && ctx.max_actx
            < 0x1_0000_0000,
        d.stack.blocks.len() > 0,
        cross_ready(m, d.stack, used, other),
        same_rows(m, d.stack.states@, used, other),
        xa.shape.rank == 3,
        xa.shape.d1 > 0,
    ensures
        match (d.prepared(device, xa, u.0, used), d.prepared(device, xa, u.1, other)) {
            (Ok((s, _, a)), Ok((r, _, b))) => {
                &&& s == d.stack.states@ && r == s
                &&& cross_alike(m, s, d.static_ctx->0, xa.shape.d1 as int, a, b)
                &&& same_rows(m, s, a, b)
            },
            (Err(x), Err(y)) => x.error == y.error,
            _ => false,
        },
{
    let ctx = d.static_ctx->0;
    let states = d.stack.states@;
    let n = d.stack.blocks.len() as int;
    lemma_stack_crossed(m, d.stack, ctx, device, xa, u, used, other, n);
    let r = d.stack.crossed(device, xa, ctx.max_actx, u.0, used, n);
    if r is Ok {
        let w = d.stack.crossed(device, xa, ctx.max_actx, u.1, other, n);
        let (f, g) = (r->Ok_0.3, w->Ok_0.3);
        let (x, y) = (d.prepared(device, xa, u.0, used), d.prepared(device, xa, u.1, other));
        if x is Ok {
            let (a, b) = (x->Ok_0.2, y->Ok_0.2);
            let (cl, cm) = (ctx.cross_len.id as int, ctx.cross_mask.id as int);
            assert forall|i: int| 0 <= i < states.len() implies ((
            #[trigger] states[i]).cross.cross_static matches Some(p) ==> {
                &&& pair_alike(m, p, xa.shape.d1 as int, a, b)
                &&& xa.shape.d1 <= m.len(a[p.v.id as int])
            }) by {
                if let Some(p) = states[i].cross.cross_static {
                    assert(uses(states[i], p.k.id as int) && uses(states[i], p.v.id as int));
                    assert(!uses(states[i], cl) && !uses(states[i], cm));
                    assert(pair_alike(m, p, xa.shape.d1 as int, f, g));
                }
            }
            assert forall|i: int| 0 <= i < states.len() implies ((
            #[trigger] states[i]).attn.static_kv matches Some(p) ==> {
                let v = p.v.id as int;
                m.len(a[v]) == m.len(b[v]) && 0 < m.len(a[v])
            }) by {
                if let Some(p) = states[i].attn.static_kv {
                    assert(uses(states[i], p.v.id as int));
                    assert(!uses(states[i], cl) && !uses(states[i], cm));
                    assert(m.len(used[p.v.id as int]) == m.len(other[p.v.id as int]));
                }
            }
        }
    }
}

} // verus!
