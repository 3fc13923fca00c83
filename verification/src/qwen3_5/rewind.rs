//! What a step may remember.
//!
//! Two runs of the static path whose buffers hold the same wherever a query can
//! see give the same. A rewound model and a new one are two such runs.
use vstd::prelude::*;

use crate::dtype::{DType, Device};
use crate::positions::{
    attended, blocked_score, counts_alike, law_blocked_keys_do_not_matter, lemma_bin_extent,
    lemma_cell_bin, lemma_cell_product, lemma_cell_un, lemma_counted_row, lemma_laid_out,
    lemma_mask_row, lemma_one_run, lemma_row_written, lemma_same_bin, lemma_same_part,
    lemma_same_run, lemma_same_tri, lemma_same_un, lemma_sliced, lemma_un_extent, sideways, Meaning,
};
use crate::qwen3_5::attention::{FullAttention, FullKv};
use crate::qwen3_5::delta::{tap, GatedDeltaNet, GdnState, Live, Slot};
use crate::qwen3_5::ffn::{Ffn, Mlp, SparseMoe};
use crate::qwen3_5::laws::{lemma_wiping_frame, unfixed};
use crate::qwen3_5::layer::{DecoderLayer, HalfwayOut, MixState, Mixer, Mode, QwenStaticCtx};
use crate::qwen3_5::model::{Flow, Model, Outcome, Pass, Task};
use crate::qwen3_5::norm::Rotary;
use crate::qwen3_5::pieces;
use crate::qwen3_5::pieces::{aligned, as_scan, lemma_same_proj, step_conv};
use crate::qwen3_5::spans;
use crate::rows::cell_blocked;
use crate::shape::{d2, d3, d4, sat_product};
use crate::static_decode::{counted, mask_row_effect};
use crate::tape::{
    bin, gates_val, held, leaf, opt_val, pick_val, tri, un, Buf, Bufs, GateRule, Op, Scalar, Term,
    Val,
};

verus! {

/// Two values of one position that hold the same.
pub open spec fn alike<V>(m: Meaning<V>, a: Val, b: Val) -> bool {
    &&& m.same(a, 0, b, 0)
    &&& a.shape == b.shape
    &&& a.dtype == b.dtype
    &&& m.len(a.term) == 1
    &&& m.len(b.term) == 1
}

/// A layer steps in buffer `id`.
pub open spec fn uses(s: MixState, id: int) -> bool {
    match s {
        MixState::Full(kv) => kv.statics matches Some(p) && (p.k.id == id || p.v.id == id),
        MixState::Linear(g) => {
            ||| g.conv.fixed matches Some(b) && b.id == id
            ||| g.s.fixed matches Some(b) && b.id == id
        },
    }
}

/// The buffers of a layer are two.
pub open spec fn two_buffers(s: MixState) -> bool {
    match s {
        MixState::Full(kv) => kv.statics matches Some(p) ==> p.k.id != p.v.id,
        MixState::Linear(g) => g.conv.fixed is Some && g.s.fixed is Some ==> g.conv.fixed->0.id
            != g.s.fixed->0.id,
    }
}

/// Everything that a step works in has a buffer of its own.
pub open spec fn own_buffers(states: Seq<MixState>, ctx: QwenStaticCtx) -> bool {
    &&& ctx.pos.id != ctx.mask.id
    &&& forall|i: int| 0 <= i < states.len() ==> two_buffers(#[trigger] states[i])
    &&& forall|i: int|
        0 <= i < states.len() ==> !uses(#[trigger] states[i], ctx.pos.id as int) && !uses(
            states[i],
            ctx.mask.id as int,
        )
    &&& forall|i: int, j: int, id: int|
        0 <= i < states.len() && 0 <= j < states.len() && i != j && #[trigger] uses(states[i], id)
            ==> !(#[trigger] uses(states[j], id))
}

/// What a layer steps in holds the same in two runs, as far as a query at
/// position `n` can see: keys and values before it, the window of the
/// convolution, and the state.
pub open spec fn kept_alike<V>(
    m: Meaning<V>,
    mixer: Mixer,
    s: MixState,
    n: int,
    a: Bufs,
    b: Bufs,
) -> bool {
    match (mixer, s) {
        (Mixer::Full(_), MixState::Full(kv)) => kv.statics matches Some(p) ==> {
            let (k, v) = (p.k.id as int, p.v.id as int);
            &&& m.len(a[v]) == m.len(b[v])
            &&& forall|j: int| 0 <= j < n ==> #[trigger] m.at(a[k], j) == m.at(b[k], j)
            &&& forall|j: int| 0 <= j < n ==> #[trigger] m.at(a[v], j) == m.at(b[v], j)
        },
        (Mixer::Linear(g), MixState::Linear(st)) => st.conv.fixed is Some && st.s.fixed is Some ==> {
            let (c, s) = (st.conv.fixed->0.id as int, st.s.fixed->0.id as int);
            &&& sideways(a[c]) && sideways(b[c])
            &&& forall|j: int| 0 <= j < g.conv_kernel ==> #[trigger] m.at(a[c], j) == m.at(b[c], j)
            &&& m.at(a[s], 0) == m.at(b[s], 0)
        },
        _ => true,
    }
}

/// Only what a layer steps in matters to it.
proof fn lemma_kept_frame<V>(
    m: Meaning<V>,
    mixer: Mixer,
    s: MixState,
    n: int,
    a: (Bufs, Bufs),
    b: (Bufs, Bufs),
)
    requires
        kept_alike(m, mixer, s, n, a.0, b.0),
        forall|id: int| #[trigger] uses(s, id) ==> a.0[id] == a.1[id] && b.0[id] == b.1[id],
    ensures
        kept_alike(m, mixer, s, n, a.1, b.1),
{
    match s {
        MixState::Full(kv) => {
            if let Some(p) = kv.statics {
                assert(uses(s, p.k.id as int) && uses(s, p.v.id as int));
            }
        },
        MixState::Linear(g) => {
            if g.conv.fixed is Some && g.s.fixed is Some {
                assert(uses(s, g.conv.fixed->0.id as int) && uses(s, g.s.fixed->0.id as int));
            }
        },
    }
}

/// The position counts `n`, and the mask shows what is not after it.
pub open spec fn stands_at(ctx: QwenStaticCtx, n: int, bufs: Bufs) -> bool {
    &&& counted(bufs[ctx.pos.id as int]) == Some(n)
    &&& forall|j: int| #[trigger] cell_blocked(bufs[ctx.mask.id as int], j) == Some(n < j)
}

/// Rotation by the rows at a counted position.
proof fn lemma_same_turn<V>(m: Meaning<V>, r: Rotary, hd: usize, x: (Val, Val), at: (Val, Val))
    requires
        m.same(x.0, 0, x.1, 0),
        x.0.dtype == x.1.dtype,
        counted(at.0.term) is Some,
        counted(at.0.term) == counted(at.1.term),
        r.rot <= hd,
    ensures
        m.same(r.at_rows(x.0, at.0, hd), 0, r.at_rows(x.1, at.1, hd), 0),
        r.at_rows(x.0, at.0, hd).dtype == x.0.dtype,
        r.at_rows(x.1, at.1, hd).dtype == x.1.dtype,
{
    let to = Op::ToDType(x.0.dtype);
    let row = |w: crate::tape::Weight, p: Val| bin(Op::IndexSelect(0), leaf(Op::Param(w)), p);
    lemma_counted_row(m, r.cos, at.0, 0);
    lemma_counted_row(m, r.cos, at.1, 0);
    lemma_counted_row(m, r.sin, at.0, 0);
    lemma_counted_row(m, r.sin, at.1, 0);
    lemma_same_un(m, to, row(r.cos, at.0), 0, row(r.cos, at.1), 0);
    lemma_same_un(m, to, row(r.sin, at.0), 0, row(r.sin, at.1), 0);
    let (ca, cb) = (un(to, row(r.cos, at.0)), un(to, row(r.cos, at.1)));
    let (sa, sb) = (un(to, row(r.sin, at.0)), un(to, row(r.sin, at.1)));
    if r.rot == hd {
        lemma_same_tri(m, Op::RopeInterleaved, (x.0, ca, sa), 0, (x.1, cb, sb), 0);
    } else {
        let turn = Op::Narrow { dim: 3, start: 0, len: r.rot };
        let pass = Op::Narrow { dim: 3, start: r.rot, len: (hd - r.rot) as usize };
        lemma_same_part(m, turn, x.0, 0, x.1, 0);
        lemma_same_part(m, pass, x.0, 0, x.1, 0);
        let (ta, tb) = (un(turn, x.0), un(turn, x.1));
        lemma_same_tri(m, Op::RopeInterleaved, (ta, ca, sa), 0, (tb, cb, sb), 0);
        let (ra, rb) = (
            tri(Op::RopeInterleaved, ta, ca, sa),
            tri(Op::RopeInterleaved, tb, cb, sb),
        );
        lemma_same_bin(m, Op::Cat(3), (ra, un(pass, x.0)), 0, (rb, un(pass, x.1)), 0);
    }
    reveal(un);
    reveal(bin);
    reveal(tri);
}

/// The scores of a step over a whole buffer of keys.
pub open spec fn step_scores(f: FullAttention, q: Val, k: Val, mask: Val) -> Val {
    let rep = f.n_heads / f.n_kv_heads;
    let q4 = un(Op::Reshape(d4(1, f.n_kv_heads, rep, f.head_dim)), q);
    let att = un(
        Op::MulScalar(Scalar::RecipSqrt(f.head_dim)),
        bin(Op::MatMul, q4, un(Op::Transpose(2, 3), un(Op::Unsqueeze(0), k))),
    );
    bin(
        Op::BroadcastAdd,
        un(Op::ToDType(DType::F32), att),
        un(Op::Reshape(d4(1, 1, 1, k.shape.d1)), mask),
    )
}

/// The score of key `j`, with its cell of the mask.
pub(crate) proof fn lemma_step_score<V>(m: Meaning<V>, f: FullAttention, q: Val, k: Val, mask: Val, j: int)
    requires
        cell_blocked(mask.term, j) is Some,
    ensures
        m.cell_at(step_scores(f, q, k, mask).term, 0, j) == (m.bin)(
            Op::BroadcastAdd,
            (m.un)(
                Op::MulScalar(Scalar::RecipSqrt(f.head_dim)),
                (m.score)(m.at(q.term, 0), m.at(k.term, j)),
            ),
            (m.cell)(cell_blocked(mask.term, j)->0),
        ),
{
    let rep = f.n_heads / f.n_kv_heads;
    let grouped = Op::Reshape(d4(1, f.n_kv_heads, rep, f.head_dim));
    let q4 = un(grouped, q);
    let kb = un(Op::Unsqueeze(0), k);
    let product = bin(Op::MatMul, q4, un(Op::Transpose(2, 3), kb));
    let scale = Op::MulScalar(Scalar::RecipSqrt(f.head_dim));
    let (to, flat) = (Op::ToDType(DType::F32), Op::Reshape(d4(1, 1, 1, k.shape.d1)));
    lemma_laid_out(m, grouped, q, 0);
    lemma_laid_out(m, Op::Unsqueeze(0), k, j);
    lemma_cell_product(m, q4, Op::Transpose(2, 3), kb, 0, j);
    lemma_cell_un(m, scale, product, 0, j);
    lemma_cell_un(m, to, un(scale, product), 0, j);
    lemma_cell_un(m, flat, mask, 0, j);
    lemma_mask_row(m, mask, 0, j);
    lemma_cell_bin(m, Op::BroadcastAdd, un(to, un(scale, product)), un(flat, mask), 0, j);
}

/// A step of attention, in two runs that hold the same up to the position.
proof fn lemma_attention_alike<V>(
    m: Meaning<V>,
    f: FullAttention,
    device: Device,
    rotary: Rotary,
    ctx: QwenStaticCtx,
    n: int,
    x: (Val, Val),
    kv: FullKv,
    buffers: (Seq<Buf>, Seq<Buf>),
    a: Bufs,
    b: Bufs,
)
    requires
        m.masks(),
        rotary.rot <= f.head_dim,
        alike(m, x.0, x.1),
        stands_at(ctx, n, a) && stands_at(ctx, n, b),
        two_buffers(MixState::Full(kv)),
        !uses(MixState::Full(kv), ctx.pos.id as int),
        !uses(MixState::Full(kv), ctx.mask.id as int),
        kept_alike(m, Mixer::Full(f), MixState::Full(kv), n, a, b),
    ensures
        match (
            f.step_pass(device, x.0, rotary, ctx.pos, ctx.mask, kv, buffers.0, a),
            f.step_pass(device, x.1, rotary, ctx.pos, ctx.mask, kv, buffers.1, b),
        ) {
            (Ok(p), Ok(q)) => {
                &&& m.same(p.out, 0, q.out, 0)
                &&& p.kv == kv && q.kv == kv
                &&& kept_alike(m, Mixer::Full(f), MixState::Full(kv), n + 1, p.bufs, q.bufs)
                &&& forall|id: int|
                    !uses(MixState::Full(kv), id) ==> #[trigger] p.bufs[id] == a[id]
                &&& forall|id: int|
                    !uses(MixState::Full(kv), id) ==> #[trigger] q.bufs[id] == b[id]
            },
            (Err(d), Err(e)) => d.error == e.error,
            _ => false,
        },
{
    if let Some(p) = kv.statics {
        let hd = f.head_dim;
        let (ta, tb) = (held(a, ctx.pos), held(b, ctx.pos));
        let row = Op::Reshape(d3(f.n_kv_heads, 1, hd));
        spans::lemma_same_heads(m, f, 1, (x.0, 1), 0, (x.1, 1), 0);
        let (qa, qb) = (f.query(x.0, 1, 1), f.query(x.1, 1, 1));
        lemma_same_turn(m, rotary, hd, (qa, qb), (ta, tb));
        lemma_same_turn(m, rotary, hd, (f.key(x.0, 1, 1), f.key(x.1, 1, 1)), (ta, tb));
        let (qa, qb) = (rotary.at_rows(qa, ta, hd), rotary.at_rows(qb, tb, hd));
        let (ra, rb) = (
            rotary.at_rows(f.key(x.0, 1, 1), ta, hd),
            rotary.at_rows(f.key(x.1, 1, 1), tb, hd),
        );
        let (ka, kb) = (un(row, ra), un(row, rb));
        let (va, vb) = (un(row, f.value(x.0, 1, 1)), un(row, f.value(x.1, 1, 1)));
        lemma_laid_out(m, row, ra, 0);
        lemma_laid_out(m, row, rb, 0);
        lemma_laid_out(m, row, f.value(x.0, 1, 1), 0);
        lemma_laid_out(m, row, f.value(x.1, 1, 1), 0);
        assert(ka.dtype == kb.dtype && va.dtype == vb.dtype) by {
            reveal(un);
        }
        let r = f.step_pass(device, x.0, rotary, ctx.pos, ctx.mask, kv, buffers.0, a);
        let s = f.step_pass(device, x.1, rotary, ctx.pos, ctx.mask, kv, buffers.1, b);
        if r is Ok {
            let (r, s) = (r->Ok_0, s->Ok_0);
            let (ki, vi) = (p.k.id as int, p.v.id as int);
            let (ca, da) = (held(r.bufs, p.k), held(r.bufs, p.v));
            let (cb, db) = (held(s.bufs, p.k), held(s.bufs, p.v));
            let (ma, mb) = (held(a, ctx.mask), held(b, ctx.mask));
            assert(held(r.bufs, ctx.mask) == ma && held(s.bufs, ctx.mask) == mb);
            assert forall|j: int| true implies #[trigger] m.at(ca.term, j) == (if j == n {
                m.at(ka.term, 0)
            } else {
                m.at(a[ki], j)
            }) by {
                lemma_row_written(m, a[ki], ka.term, ta.term, j);
            }
            assert forall|j: int| true implies #[trigger] m.at(cb.term, j) == (if j == n {
                m.at(kb.term, 0)
            } else {
                m.at(b[ki], j)
            }) by {
                lemma_row_written(m, b[ki], kb.term, tb.term, j);
            }
            assert forall|j: int| true implies #[trigger] m.at(da.term, j) == (if j == n {
                m.at(va.term, 0)
            } else {
                m.at(a[vi], j)
            }) by {
                lemma_row_written(m, a[vi], va.term, ta.term, j);
            }
            assert forall|j: int| true implies #[trigger] m.at(db.term, j) == (if j == n {
                m.at(vb.term, 0)
            } else {
                m.at(b[vi], j)
            }) by {
                lemma_row_written(m, b[vi], vb.term, tb.term, j);
            }
            lemma_row_written(m, a[vi], va.term, ta.term, 0);
            lemma_row_written(m, b[vi], vb.term, tb.term, 0);
            let up = Op::Unsqueeze(0);
            let (wa, wb) = (un(up, da), un(up, db));
            let (sa, sb) = (step_scores(f, qa, ca, ma), step_scores(f, qb, cb, mb));
            lemma_laid_out(m, up, da, 0);
            lemma_laid_out(m, up, db, 0);
            assert forall|j: int| 0 <= j < m.len(wa.term) implies #[trigger] counts_alike(
                m,
                (sa, wa),
                (sb, wb),
                0,
                j,
            ) by {
                assert(cell_blocked(ma.term, j) == Some(n < j));
                assert(cell_blocked(mb.term, j) == Some(n < j));
                lemma_step_score(m, f, qa, ca, ma, j);
                lemma_step_score(m, f, qb, cb, mb, j);
                lemma_laid_out(m, up, da, j);
                lemma_laid_out(m, up, db, j);
                let scale = Op::MulScalar(Scalar::RecipSqrt(f.head_dim));
                let xa = (m.un)(scale, (m.score)(m.at(qa.term, 0), m.at(ca.term, j)));
                let xb = (m.un)(scale, (m.score)(m.at(qb.term, 0), m.at(cb.term, j)));
                if n < j {
                    assert(m.cell_at(sa.term, 0, j) == (m.bin)(
                        Op::BroadcastAdd,
                        xa,
                        (m.cell)(true),
                    ));
                    assert(m.cell_at(sb.term, 0, j) == (m.bin)(
                        Op::BroadcastAdd,
                        xb,
                        (m.cell)(true),
                    ));
                    assert(blocked_score(m, m.cell_at(sa.term, 0, j)));
                    assert(blocked_score(m, m.cell_at(sb.term, 0, j)));
                } else {
                    assert(m.at(ca.term, j) == m.at(cb.term, j));
                    assert(m.at(da.term, j) == m.at(db.term, j));
                }
            }
            law_blocked_keys_do_not_matter(m, Some(qa.dtype), (sa, wa), (sb, wb), 0);
            let (oa, ob) = (
                attended(Some(qa.dtype), sa, wa),
                attended(Some(qa.dtype), sb, wb),
            );
            let wide = Op::Reshape(d4(1, f.n_heads, 1, hd));
            lemma_laid_out(m, wide, oa, 0);
            lemma_laid_out(m, wide, ob, 0);
            assert(f.step_attended(qa, ca, da, ma) == un(wide, oa));
            assert(f.step_attended(qb, cb, db, mb) == un(wide, ob));
            spans::lemma_same_output(
                m,
                f,
                1,
                (un(wide, oa), un(wide, ob)),
                (x.0, 1),
                0,
                (x.1, 1),
                0,
            );
            assert(r.bufs[ki] == ca.term && r.bufs[vi] == da.term);
            assert(s.bufs[ki] == cb.term && s.bufs[vi] == db.term);
            assert forall|j: int| 0 <= j < n + 1 implies #[trigger] m.at(r.bufs[ki], j) == m.at(
                s.bufs[ki],
                j,
            ) by {
                assert(m.at(cb.term, j) == m.at(cb.term, j));
                assert(j < n ==> m.at(a[ki], j) == m.at(b[ki], j));
            }
            assert forall|j: int| 0 <= j < n + 1 implies #[trigger] m.at(r.bufs[vi], j) == m.at(
                s.bufs[vi],
                j,
            ) by {
                assert(m.at(db.term, j) == m.at(db.term, j));
                assert(j < n ==> m.at(a[vi], j) == m.at(b[vi], j));
            }
        }
    }
}

/// A step of a delta net, in two runs that hold the same.
proof fn lemma_delta_alike<V>(
    m: Meaning<V>,
    g: GatedDeltaNet,
    device: Device,
    n: int,
    x: (Val, Val),
    state: GdnState,
    buffers: (Seq<Buf>, Seq<Buf>),
    a: Bufs,
    b: Bufs,
)
    requires
        g.wf(),
        g.state_ok(state),
        alike(m, x.0, x.1),
        two_buffers(MixState::Linear(state)),
        kept_alike(m, Mixer::Linear(g), MixState::Linear(state), n, a, b),
    ensures
        match (
            g.step_pass(device, x.0, state, buffers.0, a),
            g.step_pass(device, x.1, state, buffers.1, b),
        ) {
            (Ok(p), Ok(q)) => {
                &&& m.same(p.out, 0, q.out, 0)
                &&& p.state == state && q.state == state
                &&& kept_alike(
                    m,
                    Mixer::Linear(g),
                    MixState::Linear(state),
                    n + 1,
                    p.bufs,
                    q.bufs,
                )
                &&& forall|id: int|
                    !uses(MixState::Linear(state), id) ==> #[trigger] p.bufs[id] == a[id]
                &&& forall|id: int|
                    !uses(MixState::Linear(state), id) ==> #[trigger] q.bufs[id] == b[id]
            },
            (Err(d), Err(e)) => d.error == e.error,
            _ => false,
        },
{
    if state.conv.fixed is Some && state.s.fixed is Some {
        let (cbuf, sbuf) = (state.conv.fixed->0, state.s.fixed->0);
        let (ci, si) = (cbuf.id as int, sbuf.id as int);
        let live = GdnState {
            conv: Slot { live: Live::Fixed, ..state.conv },
            s: state.s,
        };
        let all = sat_product(sat_product(x.0.shape.d0, x.0.shape.d1), x.0.shape.d2);
        let one = Op::Reshape(d2(1, all));
        let (xa, xb) = (GatedDeltaNet::row(x.0), GatedDeltaNet::row(x.1));
        lemma_un_extent(m, one, x.0);
        lemma_un_extent(m, one, x.1);
        lemma_laid_out(m, one, x.0, 0);
        lemma_laid_out(m, one, x.1, 0);
        let (pa, pb) = (g.rolled(xa, cbuf, a), g.rolled(xb, cbuf, b));
        assert(pa == g.padded(xa, live, a) && pb == g.padded(xb, live, b));
        let kept = g.conv_kernel - 1;
        let last = kept as usize;
        pieces::lemma_same_rates(m, g, xa, 0, xb, 0);
        pieces::lemma_same_rates(m, g, xb, 0, xa, 0);
        pieces::lemma_padded(m, g, xa, live, a, 0);
        pieces::lemma_padded(m, g, xb, live, b, 0);
        assert forall|k: int| 0 <= k < g.conv_kernel implies #[trigger] aligned(
            m,
            pa,
            0,
            pb,
            0,
            k,
        ) by {
            pieces::lemma_padded(m, g, xa, live, a, k);
            pieces::lemma_padded(m, g, xb, live, b, k);
            if k < kept {
                assert(m.at(a[ci], 1 + k) == m.at(b[ci], 1 + k));
                lemma_sliced(m, 1, last, held(a, cbuf), k);
                lemma_sliced(m, 1, last, held(b, cbuf), k);
            }
        }
        let w = leaf(Op::Param(g.conv1d_weight));
        assert(aligned(m, pa, 0, pb, 0, kept));
        pieces::lemma_same_tap(m, w, last, (pa, 1), 0, (pb, 1), 0);
        assert(aligned(m, pb, 0, pa, 0, kept));
        pieces::lemma_same_tap(m, w, last, (pb, 1), 0, (pa, 1), 0);
        let first = (tap(pa, w, last, 1), tap(pb, w, last, 1));
        pieces::lemma_same_taps(m, w, first, (pa, 1), 0, (pb, 1), 0, 0, kept);
        assert forall|k: int| 0 <= k < kept implies #[trigger] aligned(m, pb, 0, pa, 0, k) by {
            assert(aligned(m, pa, 0, pb, 0, k));
        }
        pieces::lemma_same_taps(m, w, (first.1, first.0), (pb, 1), 0, (pa, 1), 0, 0, kept);
        let (ca, cb) = (step_conv(g, pa), step_conv(g, pb));
        pieces::lemma_same_scan_in(m, g, (xa, xb), (ca, cb), (1, 1), 0, 0);
        let (ia, ib) = (as_scan(g.scan_in(xa, ca, 1)), as_scan(g.scan_in(xb, cb, 1)));
        assert(pa.shape == pb.shape && pa.dtype == DType::F32 && pb.dtype == DType::F32) by {
            reveal(un);
            reveal(bin);
        }
        assert(first.0.dtype == DType::F32 && first.1.dtype == DType::F32) by {
            reveal(un);
            reveal(bin);
        }
        pieces::lemma_taps_dtype(first.0, pa, w, 1, 0, kept);
        pieces::lemma_taps_dtype(first.1, pb, w, 1, 0, kept);
        pieces::lemma_scan_error(g, device, xa, ca, 1, sbuf);
        pieces::lemma_scan_error(g, device, xb, cb, 1, sbuf);
        let p = g.step_pass(device, x.0, state, buffers.0, a);
        let q = g.step_pass(device, x.1, state, buffers.1, b);
        if p is Ok {
            let (p, q) = (p->Ok_0, q->Ok_0);
            let (s, r) = (a[si], b[si]);
            assert(m.len(ia.beta.term) == 1 && m.len(ib.beta.term) == 1);
            assert forall|i: int| 0 <= i < 1 implies #[trigger] ia.same(m, i, ib, i) by {}
            lemma_same_run(m, ia, s, ib, r, 1);
            assert(p.bufs[si] == ia.state(s) && q.bufs[si] == ib.state(r));
            assert(m.at(ia.state(s), 0) == m.after(ia.state(s), 1));
            assert(m.at(ib.state(r), 0) == m.after(ib.state(r), 1));
            lemma_one_run(m, ia, s, 1);
            lemma_one_run(m, ib, r, 1);
            assert(m.same(ia.out(s), 0, ib.out(r), 0));
            pieces::lemma_same_output(
                m,
                g,
                (xa, xb),
                (ia.out(s), ib.out(r)),
                (1, 1),
                x.0.dtype,
                0,
                0,
            );
            assert(p.bufs[ci] == pa.term && q.bufs[ci] == pb.term);
            assert forall|j: int| 0 <= j < g.conv_kernel implies #[trigger] m.at(p.bufs[ci], j)
                == m.at(q.bufs[ci], j) by {
                assert(aligned(m, pa, 0, pb, 0, j));
            }
        }
    }
}

proof fn lemma_same_mlp<V>(m: Meaning<V>, f: Mlp, a: Val, b: Val)
    requires
        m.same(a, 0, b, 0),
    ensures
        m.same(f.apply(a), 0, f.apply(b), 0),
{
    lemma_same_proj(m, f.gate_proj, a, 0, b, 0);
    lemma_same_proj(m, f.up_proj, a, 0, b, 0);
    let (ga, gb) = (f.gate_proj.apply(a), f.gate_proj.apply(b));
    let (ua, ub) = (f.up_proj.apply(a), f.up_proj.apply(b));
    lemma_same_un(m, Op::Silu, ga, 0, gb, 0);
    lemma_same_bin(m, Op::Mul, (un(Op::Silu, ga), ua), 0, (un(Op::Silu, gb), ub), 0);
    lemma_same_proj(
        m,
        f.down_proj,
        bin(Op::Mul, un(Op::Silu, ga), ua),
        0,
        bin(Op::Mul, un(Op::Silu, gb), ub),
        0,
    );
}

/// The router sees the same.
proof fn lemma_same_probs<V>(m: Meaning<V>, f: SparseMoe, a: Val, b: Val)
    requires
        alike(m, a, b),
    ensures
        alike(m, f.probs(a), f.probs(b)),
{
    let flat = Op::Reshape(d2(sat_product(a.shape.d0, a.shape.d1), a.shape.d2));
    let (fa, fb) = (SparseMoe::flat(a), SparseMoe::flat(b));
    lemma_laid_out(m, flat, a, 0);
    lemma_laid_out(m, flat, b, 0);
    lemma_same_proj(m, f.gate, fa, 0, fb, 0);
    lemma_same_proj(m, f.gate, fb, 0, fa, 0);
    let (ga, gb) = (f.gate.apply(fa), f.gate.apply(fb));
    let to = Op::ToDType(DType::F32);
    lemma_same_un(m, to, ga, 0, gb, 0);
    lemma_same_un(m, Op::SoftmaxLast, un(to, ga), 0, un(to, gb), 0);
    lemma_un_extent(m, to, ga);
    lemma_un_extent(m, to, gb);
    lemma_un_extent(m, Op::SoftmaxLast, un(to, ga));
    lemma_un_extent(m, Op::SoftmaxLast, un(to, gb));
    reveal(un);
    reveal(bin);
}

proof fn lemma_same_choices<V>(
    m: Meaning<V>,
    f: SparseMoe,
    flat: (Val, Val),
    gates: (Val, Val),
    plan: Seq<Seq<usize>>,
    n: int,
)
    requires
        m.same(flat.0, 0, flat.1, 0),
        flat.0.term is Un && flat.1.term is Un,
        m.same(gates.0, 0, gates.1, 0),
    ensures
        m.same(
            f.token_sum(flat.0, gates.0, plan, 0, n),
            0,
            f.token_sum(flat.1, gates.1, plan, 0, n),
            0,
        ),
    decreases n,
{
    let j = if n <= 1 {
        0int
    } else {
        n - 1
    };
    let first = Op::Narrow { dim: 0, start: 0, len: 1 };
    let e = f.experts[plan[0][j] as int];
    lemma_same_part(m, first, flat.0, 0, flat.1, 0);
    let (xa, xb) = (un(first, flat.0), un(first, flat.1));
    lemma_same_mlp(m, e, xa, xb);
    let at = seq![(0usize, j as usize)];
    let (wa, wb) = (pick_val(gates.0, at), pick_val(gates.1, at));
    assert(m.same(wa, 0, wb, 0));
    lemma_same_bin(m, Op::ScaleBy, (e.apply(xa), wa), 0, (e.apply(xb), wb), 0);
    assert(f.choice(flat.0, gates.0, plan, 0, j) == bin(Op::ScaleBy, e.apply(xa), wa));
    assert(f.choice(flat.1, gates.1, plan, 0, j) == bin(Op::ScaleBy, e.apply(xb), wb));
    if n > 1 {
        lemma_same_choices(m, f, flat, gates, plan, n - 1);
        lemma_same_bin(
            m,
            Op::Add,
            (
                f.token_sum(flat.0, gates.0, plan, 0, n - 1),
                f.choice(flat.0, gates.0, plan, 0, n - 1),
            ),
            0,
            (
                f.token_sum(flat.1, gates.1, plan, 0, n - 1),
                f.choice(flat.1, gates.1, plan, 0, n - 1),
            ),
            0,
        );
    }
}

/// The experts that the host chose for the one position give the same.
proof fn lemma_same_experts<V>(
    m: Meaning<V>,
    f: SparseMoe,
    x: (Val, Val),
    probs: (Val, Val),
    plan: Seq<Seq<usize>>,
)
    requires
        alike(m, x.0, x.1),
        alike(m, probs.0, probs.1),
        plan.len() == 1,
    ensures
        m.same(f.out(x.0, probs.0, plan), 0, f.out(x.1, probs.1, plan), 0),
{
    let (a, b) = x;
    let flat = Op::Reshape(d2(sat_product(a.shape.d0, a.shape.d1), a.shape.d2));
    let (fa, fb) = (SparseMoe::flat(a), SparseMoe::flat(b));
    lemma_laid_out(m, flat, a, 0);
    lemma_laid_out(m, flat, b, 0);
    assert(fa.term is Un && fb.term is Un) by {
        reveal(un);
    }
    let rule = GateRule::Renormalized;
    let (ga, gb) = (gates_val(rule, probs.0, plan), gates_val(rule, probs.1, plan));
    assert(m.same(ga, 0, gb, 0));
    lemma_same_choices(m, f, (fa, fb), (ga, gb), plan, plan[0].len() as int);
    let (ra, rb) = (f.token_rows(fa, ga, plan, 1), f.token_rows(fb, gb, plan, 1));
    let deep = Op::Reshape(d3(a.shape.d0, a.shape.d1, a.shape.d2));
    lemma_laid_out(m, deep, ra, 0);
    lemma_laid_out(m, deep, rb, 0);
    if let Some(s) = f.shared {
        lemma_same_proj(m, s.gate, a, 0, b, 0);
        let (wide, to) = (Op::ToDType(DType::F32), Op::ToDType(a.dtype));
        let (pa, pb) = (s.gate.apply(a), s.gate.apply(b));
        lemma_same_un(m, wide, pa, 0, pb, 0);
        lemma_same_un(m, Op::Sigmoid, un(wide, pa), 0, un(wide, pb), 0);
        let (ta, tb) = (un(Op::Sigmoid, un(wide, pa)), un(Op::Sigmoid, un(wide, pb)));
        lemma_same_un(m, to, ta, 0, tb, 0);
        lemma_same_mlp(m, s.mlp, a, b);
        let (ya, yb) = (s.mlp.apply(a), s.mlp.apply(b));
        lemma_same_bin(m, Op::BroadcastMul, (ya, un(to, ta)), 0, (yb, un(to, tb)), 0);
        lemma_same_bin(
            m,
            Op::Add,
            (un(deep, ra), bin(Op::BroadcastMul, ya, un(to, ta))),
            0,
            (un(deep, rb), bin(Op::BroadcastMul, yb, un(to, tb))),
            0,
        );
    }
}

/// Router probabilities that hold the same, or none.
pub open spec fn routed_alike<V>(m: Meaning<V>, a: Option<Val>, b: Option<Val>) -> bool {
    match (a, b) {
        (Some(p), Some(q)) => alike(m, p, q),
        (None, None) => true,
        _ => false,
    }
}

/// Two layers halfway that hold the same.
pub open spec fn halves_alike<V>(m: Meaning<V>, h: HalfwayOut, g: HalfwayOut) -> bool {
    &&& alike(m, h.x, g.x)
    &&& alike(m, h.normed, g.normed)
    &&& routed_alike(m, h.probs, g.probs)
}

/// A sum holds the same where its parts do.
pub(crate) proof fn lemma_alike_sum<V>(m: Meaning<V>, x: (Val, Val), y: (Val, Val))
    requires
        alike(m, x.0, x.1),
        m.same(y.0, 0, y.1, 0),
    ensures
        alike(m, bin(Op::Add, x.0, y.0), bin(Op::Add, x.1, y.1)),
{
    lemma_same_bin(m, Op::Add, (x.0, y.0), 0, (x.1, y.1), 0);
    lemma_bin_extent(m, Op::Add, x.0, y.0);
    lemma_bin_extent(m, Op::Add, x.1, y.1);
    reveal(bin);
}

/// The first half of a layer, in two runs that hold the same up to the position.
proof fn lemma_halfway_alike<V>(
    m: Meaning<V>,
    l: DecoderLayer,
    device: Device,
    rotary: Rotary,
    ctx: QwenStaticCtx,
    n: int,
    x: (Val, Val),
    state: MixState,
    buffers: (Seq<Buf>, Seq<Buf>),
    a: Bufs,
    b: Bufs,
)
    requires
        m.masks(),
        l.wf(rotary),
        l.mixer.suits(state),
        alike(m, x.0, x.1),
        stands_at(ctx, n, a) && stands_at(ctx, n, b),
        two_buffers(state),
        !uses(state, ctx.pos.id as int),
        !uses(state, ctx.mask.id as int),
        kept_alike(m, l.mixer, state, n, a, b),
    ensures
        match (
            l.halfway(device, Mode::Step { ctx }, rotary, x.0, state, buffers.0, a),
            l.halfway(device, Mode::Step { ctx }, rotary, x.1, state, buffers.1, b),
        ) {
            (Ok(h), Ok(g)) => {
                &&& halves_alike(m, h, g)
                &&& h.probs is Some <==> l.host_routed()
                &&& h.state == state && g.state == state
                &&& kept_alike(m, l.mixer, state, n + 1, h.bufs, g.bufs)
                &&& forall|id: int| !uses(state, id) ==> #[trigger] h.bufs[id] == a[id]
                &&& forall|id: int| !uses(state, id) ==> #[trigger] g.bufs[id] == b[id]
            },
            (Err(d), Err(e)) => d.error == e.error,
            _ => false,
        },
{
    reveal(DecoderLayer::halfway);
    let mode = Mode::Step { ctx };
    spans::lemma_same_norm(m, l.input_layernorm, x.0, 0, x.1, 0);
    spans::lemma_same_norm(m, l.input_layernorm, x.1, 0, x.0, 0);
    let y = (l.input_layernorm.apply(x.0), l.input_layernorm.apply(x.1));
    match (l.mixer, state) {
        (Mixer::Full(f), MixState::Full(kv)) => {
            lemma_attention_alike(m, f, device, rotary, ctx, n, y, kv, buffers, a, b);
        },
        (Mixer::Linear(g), MixState::Linear(st)) => {
            lemma_delta_alike(m, g, device, n, y, st, buffers, a, b);
        },
        _ => {},
    }
    let p = l.mixer.mixed(device, mode, rotary, y.0, state, buffers.0, a);
    let q = l.mixer.mixed(device, mode, rotary, y.1, state, buffers.1, b);
    if p is Ok {
        let (p, q) = (p->Ok_0, q->Ok_0);
        lemma_alike_sum(m, x, (p.out, q.out));
        let z = (bin(Op::Add, x.0, p.out), bin(Op::Add, x.1, q.out));
        spans::lemma_same_norm(m, l.post_attention_layernorm, z.0, 0, z.1, 0);
        spans::lemma_same_norm(m, l.post_attention_layernorm, z.1, 0, z.0, 0);
        let normed = (
            l.post_attention_layernorm.apply(z.0),
            l.post_attention_layernorm.apply(z.1),
        );
        if let Ffn::Moe(moe) = l.ffn {
            lemma_same_probs(m, moe, normed.0, normed.1);
        }
    }
}

/// The second half of a layer.
proof fn lemma_finished_alike<V>(
    m: Meaning<V>,
    l: DecoderLayer,
    x: (Val, Val),
    normed: (Val, Val),
    probs: (Option<Val>, Option<Val>),
    plan: Seq<Seq<usize>>,
)
    requires
        alike(m, x.0, x.1),
        alike(m, normed.0, normed.1),
        routed_alike(m, probs.0, probs.1),
        l.host_routed() ==> probs.0 is Some && plan.len() == 1,
    ensures
        alike(
            m,
            l.finished(x.0, normed.0, probs.0, plan),
            l.finished(x.1, normed.1, probs.1, plan),
        ),
{
    match l.ffn {
        Ffn::Dense(f) => {
            lemma_same_mlp(m, f, normed.0, normed.1);
            lemma_alike_sum(m, x, (f.apply(normed.0), f.apply(normed.1)));
        },
        Ffn::Moe(f) => {
            let (p, q) = (probs.0->0, probs.1->0);
            lemma_same_experts(m, f, normed, (p, q), plan);
            lemma_alike_sum(m, x, (f.out(normed.0, p, plan), f.out(normed.1, q, plan)));
        },
    }
}

/// Two runs stand at position `n` with layers before `i` done with it, and hold
/// the same as far as it can see.
pub open spec fn runs_alike<V>(
    m: Meaning<V>,
    model: Model,
    ctx: QwenStaticCtx,
    i: int,
    n: int,
    a: Bufs,
    b: Bufs,
) -> bool {
    &&& stands_at(ctx, n, a) && stands_at(ctx, n, b)
    &&& forall|j: int|
        0 <= j < model.layers.len() ==> kept_alike(
            m,
            model.layers[j].mixer,
            #[trigger] model.states[j],
            if j < i {
                n + 1
            } else {
                n
            },
            a,
            b,
        )
}

/// Between two steps: two runs whose next position is `n` hold the same as far as
/// it can see.
pub open spec fn rests_alike<V>(
    m: Meaning<V>,
    model: Model,
    ctx: QwenStaticCtx,
    n: int,
    a: Bufs,
    b: Bufs,
) -> bool {
    &&& counted(a[ctx.pos.id as int]) == Some(n)
    &&& counted(b[ctx.pos.id as int]) == Some(n)
    &&& forall|j: int|
        0 <= j < model.layers.len() ==> kept_alike(
            m,
            model.layers[j].mixer,
            #[trigger] model.states[j],
            n,
            a,
            b,
        )
}

/// Two steps at position `n` that end, wait or fail alike: they give the same
/// logits and leave what the next step sees alike, wait at the same layer on the
/// same values, or fail for the same reason.
pub open spec fn ends_alike<V>(
    m: Meaning<V>,
    model: Model,
    ctx: QwenStaticCtx,
    n: int,
    a: Outcome,
    b: Outcome,
) -> bool {
    match (a, b) {
        (Outcome::Failed(x), Outcome::Failed(y)) => x.error == y.error,
        (
            Outcome::Paused(task, mode, layer, h, states),
            Outcome::Paused(task2, mode2, layer2, h2, states2),
        ) => {
            &&& task == Task::Step { ctx } && task2 == task
            &&& mode == Mode::Step { ctx } && mode2 == mode
            &&& layer == layer2
            &&& 0 <= layer < model.layers.len() && model.layers[layer].host_routed()
            &&& halves_alike(m, h, h2) && h.probs is Some
            &&& states == model.states@ && states2 == model.states@
            &&& runs_alike(m, model, ctx, layer + 1, n, h.bufs, h2.bufs)
        },
        (
            Outcome::Done { logits, bufs, buffers: _, states, steps },
            Outcome::Done { logits: logits2, bufs: bufs2, buffers: _, states: states2, steps: steps2 },
        ) => {
            &&& m.same(logits, 0, logits2, 0)
            &&& steps == 1 && steps2 == 1
            &&& states == model.states@ && states2 == model.states@
            &&& n + 1 < 0x1_0000_0000 ==> rests_alike(m, model, ctx, n + 1, bufs, bufs2)
        },
        _ => false,
    }
}

/// A model whose static path is on, and in which nothing shares a buffer.
pub open spec fn steps_in_place(model: Model) -> bool {
    &&& model.wf()
    &&& model.static_ctx matches Some(ctx) && own_buffers(model.states@, ctx)
}

/// The first half of layer `i` keeps two runs alike.
proof fn lemma_layer_alike<V>(
    m: Meaning<V>,
    model: Model,
    ctx: QwenStaticCtx,
    i: int,
    n: int,
    before: (Bufs, Bufs),
    after: (Bufs, Bufs),
)
    requires
        0 <= i < model.layers.len(),
        model.wf(),
        own_buffers(model.states@, ctx),
        runs_alike(m, model, ctx, i, n, before.0, before.1),
        kept_alike(m, model.layers[i].mixer, model.states[i], n + 1, after.0, after.1),
        forall|id: int| !uses(model.states[i], id) ==> #[trigger] after.0[id] == before.0[id],
        forall|id: int| !uses(model.states[i], id) ==> #[trigger] after.1[id] == before.1[id],
    ensures
        runs_alike(m, model, ctx, i + 1, n, after.0, after.1),
{
    let states = model.states@;
    assert(!uses(states[i], ctx.pos.id as int) && !uses(states[i], ctx.mask.id as int));
    assert forall|j: int| 0 <= j < model.layers.len() implies kept_alike(
        m,
        model.layers[j].mixer,
        #[trigger] model.states[j],
        if j < i + 1 {
            n + 1
        } else {
            n
        },
        after.0,
        after.1,
    ) by {
        if j != i {
            let k = if j < i {
                n + 1
            } else {
                n
            };
            assert forall|id: int| #[trigger] uses(model.states[j], id) implies before.0[id]
                == after.0[id] && before.1[id] == after.1[id] by {
                assert(uses(states[j], id));
                assert(!uses(states[i], id));
                assert(after.0[id] == before.0[id] && after.1[id] == before.1[id]);
            }
            lemma_kept_frame(
                m,
                model.layers[j].mixer,
                model.states[j],
                k,
                (before.0, after.0),
                (before.1, after.1),
            );
        }
    }
}

/// A step from layer `i` on, in two runs that hold the same up to the position.
proof fn lemma_drives_alike<V>(
    m: Meaning<V>,
    model: Model,
    device: Device,
    ctx: QwenStaticCtx,
    i: int,
    n: int,
    f: Flow,
    g: Flow,
)
    requires
        m.masks(),
        model.wf(),
        own_buffers(model.states@, ctx),
        0 <= i <= model.layers.len(),
        0 <= n,
        alike(m, f.x, g.x),
        f.states == model.states@ && g.states == model.states@,
        runs_alike(m, model, ctx, i, n, f.bufs, g.bufs),
    ensures
        ends_alike(
            m,
            model,
            ctx,
            n,
            model.drive(device, Task::Step { ctx }, Mode::Step { ctx }, i, f),
            model.drive(device, Task::Step { ctx }, Mode::Step { ctx }, i, g),
        ),
    decreases model.layers.len() - i,
{
    let mode = Mode::Step { ctx };
    let states = model.states@;
    let pos = ctx.pos.id as int;
    if i < model.layers.len() {
        let l = model.layers[i];
        assert(kept_alike(m, l.mixer, model.states[i], n, f.bufs, g.bufs));
        assert(two_buffers(states[i]) && l.mixer.suits(model.states[i]));
        lemma_halfway_alike(
            m,
            l,
            device,
            model.rotary,
            ctx,
            n,
            (f.x, g.x),
            states[i],
            (f.buffers, g.buffers),
            f.bufs,
            g.bufs,
        );
        let h = l.halfway(device, mode, model.rotary, f.x, states[i], f.buffers, f.bufs);
        let k = l.halfway(device, mode, model.rotary, g.x, states[i], g.buffers, g.bufs);
        if h is Ok {
            let (h, k) = (h->Ok_0, k->Ok_0);
            assert(states.update(i, states[i]) =~= states);
            lemma_layer_alike(m, model, ctx, i, n, (f.bufs, g.bufs), (h.bufs, k.bufs));
            if !l.host_routed() {
                let none = Seq::<Seq<usize>>::empty();
                lemma_finished_alike(
                    m,
                    l,
                    (h.x, k.x),
                    (h.normed, k.normed),
                    (h.probs, k.probs),
                    none,
                );
                lemma_drives_alike(
                    m,
                    model,
                    device,
                    ctx,
                    i + 1,
                    n,
                    Flow {
                        x: l.finished(h.x, h.normed, h.probs, none),
                        bufs: h.bufs,
                        buffers: h.buffers,
                        states,
                    },
                    Flow {
                        x: l.finished(k.x, k.normed, k.probs, none),
                        bufs: k.bufs,
                        buffers: k.buffers,
                        states,
                    },
                );
            }
        }
    } else {
        spans::lemma_same_norm(m, model.norm, f.x, 0, g.x, 0);
        let (a, b) = (model.norm.apply(f.x), model.norm.apply(g.x));
        let row = Op::Select { dim: 1, index: 0 };
        lemma_same_un(m, row, a, 0, b, 0);
        lemma_same_proj(m, model.lm_head, un(row, a), 0, un(row, b), 0);
        let (p, q) = (
            f.bufs.insert(pos, Term::Un(Op::AddU32(1), Box::new(f.bufs[pos]))),
            g.bufs.insert(pos, Term::Un(Op::AddU32(1), Box::new(g.bufs[pos]))),
        );
        assert forall|j: int| 0 <= j < model.layers.len() implies kept_alike(
            m,
            model.layers[j].mixer,
            #[trigger] model.states[j],
            n + 1,
            p,
            q,
        ) by {
            assert(!uses(states[j], pos));
            lemma_kept_frame(
                m,
                model.layers[j].mixer,
                model.states[j],
                n + 1,
                (f.bufs, p),
                (g.bufs, q),
            );
        }
    }
}

/// A step depends on what its position can see, and on nothing else: from buffers
/// that agree on that, two runs end alike, and leave alike what the next step
/// sees.
pub proof fn law_step_depends_on_what_it_sees<V>(
    m: Meaning<V>,
    model: Model,
    device: Device,
    ids: Val,
    n: int,
    a: (Seq<Buf>, Bufs),
    b: (Seq<Buf>, Bufs),
)
    requires
        m.masks(),
        steps_in_place(model),
        m.len(ids.term) == 1,
        0 <= n,
        rests_alike(m, model, model.static_ctx->0, n, a.1, b.1),
    ensures
        ends_alike(
            m,
            model,
            model.static_ctx->0,
            n,
            model.step_job(device, ids, a.1, a.0),
            model.step_job(device, ids, b.1, b.0),
        ),
{
    let ctx = model.static_ctx->0;
    let mask = ctx.mask.id as int;
    if let (Ok(p), Ok(q)) = (
        mask_row_effect(device, a.1, ctx.mask, ctx.pos, 0),
        mask_row_effect(device, b.1, ctx.mask, ctx.pos, 0),
    ) {
        assert forall|j: int| 0 <= j < model.layers.len() implies kept_alike(
            m,
            model.layers[j].mixer,
            #[trigger] model.states[j],
            n,
            p,
            q,
        ) by {
            assert(!uses(model.states@[j], mask));
            lemma_kept_frame(m, model.layers[j].mixer, model.states[j], n, (a.1, p), (b.1, q));
        }
        let x = un(Op::Embedding(model.embed_tokens), ids);
        lemma_un_extent(m, Op::Embedding(model.embed_tokens), ids);
        lemma_drives_alike(
            m,
            model,
            device,
            ctx,
            0,
            n,
            Flow { x, bufs: p, buffers: a.0, states: model.states@ },
            Flow { x, bufs: q, buffers: b.0, states: model.states@ },
        );
    }
}

/// Two steps that wait alike and get the same experts go on alike.
pub proof fn law_resumed_step_depends_on_what_it_sees<V>(
    m: Meaning<V>,
    model: Model,
    device: Device,
    p: Pass,
    q: Pass,
    plan: Seq<Seq<usize>>,
    n: int,
    a: (Seq<Buf>, Bufs),
    b: (Seq<Buf>, Bufs),
)
    requires
        m.masks(),
        steps_in_place(model),
        0 <= n,
        plan.len() == 1,
        ({
            let ctx = model.static_ctx->0;
            &&& p.task == Task::Step { ctx } && q.task == p.task
            &&& p.mode == Mode::Step { ctx } && q.mode == p.mode
            &&& p.layer == q.layer && p.layer < model.layers.len()
            &&& alike(m, p.half.x@, q.half.x@)
            &&& alike(m, p.half.normed@, q.half.normed@)
            &&& routed_alike(m, opt_val(p.half.probs), opt_val(q.half.probs))
            &&& p.half.probs is Some
            &&& runs_alike(m, model, ctx, p.layer + 1, n, a.1, b.1)
        }),
    ensures
        ends_alike(
            m,
            model,
            model.static_ctx->0,
            n,
            model.resumed(device, p, plan, a.1, a.0),
            model.resumed(device, q, plan, b.1, b.0),
        ),
{
    let ctx = model.static_ctx->0;
    let i = p.layer as int;
    let l = model.layers[i];
    let (h, k) = (p.half, q.half);
    assert(h.normed.shape == k.normed.shape);
    lemma_finished_alike(
        m,
        l,
        (h.x@, k.x@),
        (h.normed@, k.normed@),
        (opt_val(h.probs), opt_val(k.probs)),
        plan,
    );
    lemma_drives_alike(
        m,
        model,
        device,
        ctx,
        i + 1,
        n,
        Flow {
            x: l.finished(h.x@, h.normed@, opt_val(h.probs), plan),
            bufs: a.1,
            buffers: a.0,
            states: model.states@,
        },
        Flow {
            x: l.finished(k.x@, k.normed@, opt_val(k.probs), plan),
            bufs: b.1,
            buffers: b.0,
            states: model.states@,
        },
    );
}

/// What a layer steps in is as it was made: zeros in the buffers of a delta net.
/// Keys and values may be anything.
pub open spec fn layer_new(s: MixState, bufs: Bufs) -> bool {
    s matches MixState::Linear(g) ==> {
        &&& g.conv.fixed matches Some(c) ==> bufs[c.id as int] == Term::Leaf(
            Op::Zeros { shape: c.shape, dtype: DType::F32 },
        )
        &&& g.s.fixed matches Some(c) ==> bufs[c.id as int] == Term::Leaf(
            Op::Zeros { shape: c.shape, dtype: DType::F32 },
        )
    }
}

/// The static path is as it was when it was switched on.
pub open spec fn path_new(states: Seq<MixState>, ctx: QwenStaticCtx, bufs: Bufs) -> bool {
    &&& counted(bufs[ctx.pos.id as int]) == Some(0int)
    &&& forall|i: int| 0 <= i < states.len() ==> layer_new(#[trigger] states[i], bufs)
}

/// The buffer of values of a layer holds as many rows as it has.
pub open spec fn rows_filled<V>(m: Meaning<V>, s: MixState, bufs: Bufs) -> bool {
    s matches MixState::Full(kv) ==> (kv.statics matches Some(p) ==> m.len(bufs[p.v.id as int])
        == p.v.shape.d1)
}

pub open spec fn all_filled<V>(m: Meaning<V>, states: Seq<MixState>, bufs: Bufs) -> bool {
    forall|i: int| 0 <= i < states.len() ==> rows_filled(m, #[trigger] states[i], bufs)
}

/// Rewinding makes the static path new, whatever it held, and keeps the rows of
/// keys and values.
pub proof fn law_reset_makes_new<V>(m: Meaning<V>, model: Model, device: Device, used: Bufs)
    requires
        steps_in_place(model),
        all_filled(m, model.states@, used),
    ensures
        model.reset_effect(device, used) matches Ok(a) ==> path_new(
            model.states@,
            model.static_ctx->0,
            a,
        ) && all_filled(m, model.states@, a),
{
    let ctx = model.static_ctx->0;
    let states = model.states@;
    let pos = ctx.pos.id as int;
    let n = states.len() as int;
    assert forall|i: int, id: int|
        0 <= i < n && #[trigger] uses(states[i], id) implies unfixed(states, i + 1, id) by {
        assert forall|j: int| i + 1 <= j < n implies (#[trigger] states[j] matches MixState::Linear(
            g,
        ) ==> {
            &&& g.conv.fixed matches Some(b) ==> b.id != id
            &&& g.s.fixed matches Some(b) ==> b.id != id
        }) by {
            assert(!uses(states[j], id));
        }
    }
    assert(unfixed(states, 0, pos)) by {
        assert forall|j: int| 0 <= j < n implies (#[trigger] states[j] matches MixState::Linear(
            g,
        ) ==> {
            &&& g.conv.fixed matches Some(b) ==> b.id != pos
            &&& g.s.fixed matches Some(b) ==> b.id != pos
        }) by {
            assert(!uses(states[j], pos));
        }
    }
    if let Ok(a) = model.reset_effect(device, used) {
        let first = used.insert(pos, Term::Leaf(Op::U32(0)));
        lemma_wiping_frame(device, states, first, 0, n, pos);
        assert forall|i: int| 0 <= i < n implies layer_new(#[trigger] states[i], a) by {
            if let MixState::Linear(g) = states[i] {
                assert(two_buffers(states[i]));
                if let Some(c) = g.conv.fixed {
                    assert(uses(states[i], c.id as int));
                    lemma_wiping_frame(device, states, first, i + 1, n, c.id as int);
                }
                if let Some(c) = g.s.fixed {
                    assert(uses(states[i], c.id as int));
                    lemma_wiping_frame(device, states, first, i + 1, n, c.id as int);
                }
            }
        }
        assert forall|i: int| 0 <= i < n implies rows_filled(m, #[trigger] states[i], a) by {
            if let MixState::Full(kv) = states[i] {
                if let Some(p) = kv.statics {
                    let v = p.v.id as int;
                    assert(uses(states[i], v));
                    assert(v != pos) by {
                        assert(!uses(states[i], pos));
                    }
                    assert(unfixed(states, 0, v)) by {
                        assert forall|j: int| 0 <= j < n implies (
                        #[trigger] states[j] matches MixState::Linear(g) ==> {
                            &&& g.conv.fixed matches Some(b) ==> b.id != v
                            &&& g.s.fixed matches Some(b) ==> b.id != v
                        }) by {
                            if j != i {
                                assert(!uses(states[j], v));
                            }
                        }
                    }
                    lemma_wiping_frame(device, states, first, 0, n, v);
                    assert(rows_filled(m, states[i], used));
                }
            }
        }
    }
}

/// After rewinding, a step has the logits of a model whose static path was just
/// switched on, and so has every step after it: the next ones see the same.
pub proof fn law_reset_is_a_fresh_start<V>(
    m: Meaning<V>,
    model: Model,
    device: Device,
    ids: Val,
    buffers: (Seq<Buf>, Seq<Buf>),
    used: Bufs,
    new: Bufs,
)
    requires
        m.masks(),
        steps_in_place(model),
        m.len(ids.term) == 1,
        all_filled(m, model.states@, used),
        all_filled(m, model.states@, new),
        path_new(model.states@, model.static_ctx->0, new),
    ensures
        model.reset_effect(device, used) matches Ok(a) ==> {
            let ctx = model.static_ctx->0;
            &&& rests_alike(m, model, ctx, 0, a, new)
            &&& ends_alike(
                m,
                model,
                ctx,
                0,
                model.step_job(device, ids, a, buffers.0),
                model.step_job(device, ids, new, buffers.1),
            )
        },
{
    law_reset_makes_new(m, model, device, used);
    if let Ok(a) = model.reset_effect(device, used) {
        let states = model.states@;
        assert forall|j: int| 0 <= j < model.layers.len() implies kept_alike(
            m,
            model.layers[j].mixer,
            #[trigger] model.states[j],
            0,
            a,
            new,
        ) by {
            assert(rows_filled(m, states[j], a) && rows_filled(m, states[j], new));
            assert(layer_new(states[j], a) && layer_new(states[j], new));
        }
        law_step_depends_on_what_it_sees(
            m,
            model,
            device,
            ids,
            0,
            (buffers.0, a),
            (buffers.1, new),
        );
    }
}

/// A layer has no buffers to step in yet.
pub open spec fn eager_only(s: MixState) -> bool {
    match s {
        MixState::Full(kv) => kv.statics is None,
        MixState::Linear(g) => g.conv.fixed is None && g.s.fixed is None,
    }
}

/// A layer steps in buffers `id` and `id + 1`.
pub open spec fn steps_in(s: MixState, id: int) -> bool {
    match s {
        MixState::Full(kv) => kv.statics matches Some(p) && p.k.id == id && p.v.id == id + 1,
        MixState::Linear(g) => {
            &&& g.conv.fixed matches Some(c) && c.id == id
            &&& g.s.fixed matches Some(c) && c.id == id + 1
        },
    }
}

/// Buffers are made in the order of the layers, two for each.
proof fn lemma_enabled_places<V>(
    m: Meaning<V>,
    model: Model,
    max_seq: usize,
    u: (Seq<Buf>, Bufs),
    n: int,
)
    requires
        model.wf(),
        0 <= n <= model.layers.len(),
        u.0.len() + 2 * n <= usize::MAX,
        forall|i: int| 0 <= i < model.states.len() ==> eager_only(#[trigger] model.states[i]),
    ensures
        ({
            let (states, buffers, bufs) = model.enabled(model.states@, max_seq, u.0, u.1, n);
            &&& states.len() == model.states.len()
            &&& buffers.len() == u.0.len() + 2 * n
            &&& forall|i: int|
                0 <= i < n ==> {
                    &&& steps_in(#[trigger] states[i], u.0.len() + 2 * i)
                    &&& layer_new(states[i], bufs)
                    &&& rows_filled(m, states[i], bufs)
                }
            &&& forall|id: int| id < u.0.len() ==> #[trigger] bufs[id] == u.1[id]
        }),
    decreases n,
{
    if n > 0 {
        lemma_enabled_places(m, model, max_seq, u, n - 1);
        assert(eager_only(model.states[n - 1]));
        assert(model.layers[n - 1].mixer.suits(model.states[n - 1]));
        let (s, w, b) = model.enabled(model.states@, max_seq, u.0, u.1, n - 1);
        let (states, buffers, bufs) = model.enabled(model.states@, max_seq, u.0, u.1, n);
        assert forall|i: int| 0 <= i < n implies {
            &&& steps_in(#[trigger] states[i], u.0.len() + 2 * i)
            &&& layer_new(states[i], bufs)
            &&& rows_filled(m, states[i], bufs)
        } by {
            if i < n - 1 {
                assert(states[i] == s[i]);
                assert(steps_in(s[i], u.0.len() + 2 * i));
            }
        }
    }
}

/// Switching the static path on gives every layer buffers of its own, and a path
/// that is new.
pub proof fn law_enabled_path_is_new<V>(
    m: Meaning<V>,
    model: Model,
    max_seq: usize,
    buffers: Seq<Buf>,
    bufs: Bufs,
)
    requires
        model.wf(),
        model.static_ctx is None,
        buffers.len() + 2 + 2 * model.layers.len() <= usize::MAX,
        forall|i: int| 0 <= i < model.states.len() ==> eager_only(#[trigger] model.states[i]),
    ensures
        ({
            let (ctx, u, b) = model.ctx_made(max_seq, buffers, bufs);
            let (states, _, after) = model.enabled(
                model.states@,
                max_seq,
                u,
                b,
                model.layers.len() as int,
            );
            &&& own_buffers(states, ctx)
            &&& path_new(states, ctx, after)
            &&& all_filled(m, states, after)
        }),
{
    let n = model.layers.len() as int;
    let (ctx, u, b) = model.ctx_made(max_seq, buffers, bufs);
    lemma_enabled_places(m, model, max_seq, (u, b), n);
    let (states, _, after) = model.enabled(model.states@, max_seq, u, b, n);
    let base = u.len() as int;
    assert forall|i: int, id: int|
        0 <= i < n && #[trigger] uses(states[i], id) implies base + 2 * i <= id < base + 2 * i
        + 2 by {
        assert(steps_in(states[i], base + 2 * i));
    }
    assert forall|i: int| 0 <= i < n implies two_buffers(#[trigger] states[i]) && layer_new(
        states[i],
        after,
    ) && rows_filled(m, states[i], after) && !uses(states[i], ctx.pos.id as int) && !uses(
        states[i],
        ctx.mask.id as int,
    ) by {
        assert(steps_in(states[i], base + 2 * i));
    }
    assert(after[ctx.pos.id as int] == b[ctx.pos.id as int]);
}

} // verus!
