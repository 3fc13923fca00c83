//! What a prefill in whole chunks on the device leaves behind.
//!
//! A chunk that takes its position from a buffer writes the rows that one with a
//! position on the host writes. [`TextModel::prefill_static_graph`] fills the last
//! chunk up: two jobs that fill it differently keep the same keys and values for
//! the tokens of the prompt, and give the same in the rows of the last chunk that
//! belong to it.
use vstd::prelude::*;

use crate::dtype::Device;
use crate::gemma4::alike::{
    agree, agree_opt, lemma_agree_finished, lemma_agree_self, lemma_agree_un, plans_agree,
};
use crate::gemma4::attention::Attention;
use crate::gemma4::context::{ChunkCtx, LayerKv, Shared, StaticCtx};
use crate::gemma4::layer::ModeVal;
use crate::gemma4::model::{
    chunk_count, chunk_ids, lemma_chunk_count, padded_ids, slice_of, Entry, Flow, Outcome, Pass,
    Ran, TaskVal, TextModel,
};
use crate::gemma4::norm::RotaryEmbedding;
use crate::gemma4::rewind::{
    ctx_of, flows_alike, kept_alike, law_logits_row_by_row, lemma_agree_heads, lemma_entered_alike,
    lemma_resting_frame, lemma_rows_from, lemma_rows_written, lemma_runs_alike, lemma_slices_agree,
    mode_apart, of_mode, own_buffers, passes_alike, rans_alike, resting, rests_alike, settled,
    shares, stands_at, upto, uses,
};
use crate::positions::{
    counted_from, lemma_laid_out, lemma_looked_up, lemma_same_tri, lemma_un_extent, Meaning,
};
use crate::shape::{d2, d3};
use crate::static_decode::{
    advance_effect, counted, iota_effect, mask_block_effect, u32_effect, Refused,
};
use crate::tape::{
    bin, bin_term, held, ids_val, leaf, opt_val, tri, tri_term, un, Buf, Bufs, Op, Val, Weight,
};

verus! {

/// Rows of the chunk at hand that belong to the prompt.
pub open spec fn real_rows(task: TaskVal) -> int {
    match task {
        TaskVal::Graph { ctx, cctx, padded, at, chunks, total } => if at + 1 < chunks {
            cctx.chunk as int
        } else {
            last_rows(task)
        },
        _ => 0,
    }
}

/// Rows of the last chunk that belong to the prompt.
pub open spec fn last_rows(task: TaskVal) -> int {
    match task {
        TaskVal::Graph { ctx, cctx, padded, at, chunks, total } => cctx.chunk - (padded.len()
            - total),
        _ => 0,
    }
}

/// Position of the first row of the chunk at hand, where the job began at `base`.
pub open spec fn chunk_base(task: TaskVal, base: int) -> int {
    match task {
        TaskVal::Graph { ctx, cctx, padded, at, chunks, total } => base + at * cctx.chunk,
        _ => base,
    }
}

/// The state on the device that a prefill in chunks works with.
pub open spec fn graph_mode(task: TaskVal) -> ModeVal {
    match task {
        TaskVal::Graph { ctx, cctx, padded, at, chunks, total } => ModeVal::ChunkDev(ctx),
        _ => arbitrary(),
    }
}

/// Tokens of the prompt.
pub open spec fn prompt_len(task: TaskVal) -> int {
    match task {
        TaskVal::Graph { ctx, cctx, padded, at, chunks, total } => total as int,
        _ => 0,
    }
}

/// Two jobs at the same chunk of the same prompt, which may be filled up
/// differently.
pub open spec fn paddings(a: TaskVal, b: TaskVal, base: int) -> bool {
    match (a, b) {
        (
            TaskVal::Graph { ctx, cctx, padded, at, chunks, total },
            TaskVal::Graph {
                ctx: ctx2,
                cctx: cctx2,
                padded: padded2,
                at: at2,
                chunks: chunks2,
                total: total2,
            },
        ) => {
            &&& ctx == ctx2 && cctx == cctx2 && at == at2 && chunks == chunks2 && total == total2
            &&& ctx.chunk == Some(cctx) && mode_apart(ctx)
            &&& 0 < cctx.chunk && at < chunks
            &&& padded.len() == chunks * cctx.chunk && padded2.len() == padded.len()
            &&& total <= padded.len() < total + cctx.chunk
            &&& forall|i: int| 0 <= i < total ==> #[trigger] padded[i] == padded2[i]
            &&& 0 <= base && base + padded.len() < 0x1_0000_0000
        },
        _ => false,
    }
}

/// Two prefills of the same prompt that end, wait or fail alike. At the end they
/// agree in the rows of the last chunk that belong to the prompt, their logits are
/// those of the last of these rows, the position is that of the next token, and
/// the keys and values of the prompt are the same.
pub open spec fn prefills_alike<V>(
    m: Meaning<V>,
    model: TextModel,
    task: TaskVal,
    base: int,
    a: Outcome,
    b: Outcome,
) -> bool {
    let mode = graph_mode(task);
    match (a, b) {
        (Outcome::Failed(x), Outcome::Failed(y)) => x.error == y.error,
        (
            Outcome::Paused(task1, mode1, plis, layer, h, kv),
            Outcome::Paused(task2, mode2, plis2, layer2, h2, kv2),
        ) => {
            &&& paddings(task1, task2, base)
            &&& graph_mode(task1) == mode && prompt_len(task1) == prompt_len(task)
            &&& last_rows(task1) == last_rows(task)
            &&& mode1 == mode && mode2 == mode
            &&& agree_opt(m, plis, plis2, real_rows(task1))
            &&& rans_alike(
                m,
                model,
                mode,
                chunk_base(task1, base),
                real_rows(task1),
                Ran::Paused(layer, h, kv),
                Ran::Paused(layer2, h2, kv2),
            )
        },
        (
            Outcome::Done { hidden, logits, bufs, buffers, kv },
            Outcome::Done {
                hidden: hidden2,
                logits: logits2,
                bufs: bufs2,
                buffers: buffers2,
                kv: kv2,
            },
        ) => {
            let r = last_rows(task);
            let last = Op::Narrow { dim: 1, start: (r - 1) as usize, len: 1 };
            let pos = ctx_of(mode).pos.id as int;
            &&& 0 < r && agree(m, hidden, hidden2, r)
            &&& logits == model.logits(un(last, hidden))
            &&& logits2 == model.logits(un(last, hidden2))
            &&& kv == kv2 && buffers == buffers2
            &&& counted(bufs[pos]) == Some(prompt_len(task))
            &&& counted(bufs2[pos]) == Some(prompt_len(task))
            &&& resting(
                m,
                model,
                mode,
                0,
                base + prompt_len(task),
                0,
                kv,
                buffers,
                bufs,
                bufs2,
            )
        },
        _ => false,
    }
}

/// Two chunks whose first `r` token numbers are the same enter the layers alike.
proof fn lemma_fed_alike<V>(
    m: Meaning<V>,
    model: TextModel,
    device: Device,
    ctx: StaticCtx,
    c: ChunkCtx,
    ids: (Seq<u32>, Seq<u32>),
    p: int,
    r: int,
    kv: Seq<LayerKv>,
    buffers: Seq<Buf>,
    a: Bufs,
    b: Bufs,
)
    requires
        ctx.chunk == Some(c),
        mode_apart(ctx),
        rests_alike(m, model, ModeVal::ChunkDev(ctx), p, kv, buffers, a, b),
        ids.0.len() == ids.1.len(),
        0 <= r <= ids.0.len(),
        forall|i: int| 0 <= i < r ==> #[trigger] ids.0[i] == ids.1[i],
    ensures
        entries_alike(
            m,
            model,
            ctx,
            p,
            r,
            kv,
            buffers,
            model.enter_fed(device, ctx, c, ids.0, a),
            model.enter_fed(device, ctx, c, ids.1, b),
        ),
{
    let mode = ModeVal::ChunkDev(ctx);
    let flat = Op::Reshape(d2(1, ids.0.len() as usize));
    let (va, vb) = (ids_val(ids.0), ids_val(ids.1));
    assert(agree(m, va, vb, r)) by {
        assert forall|i: int| 0 <= i < r implies #[trigger] m.same(va, i, vb, i) by {
            assert(ids.0[i] == ids.1[i]);
        }
    }
    lemma_agree_un(m, flat, va, vb, r);
    let fed = (
        TextModel::fed(device, a, c, ids.0),
        TextModel::fed(device, b, c, ids.1),
    );
    assert(un(flat, va).shape == un(flat, vb).shape && un(flat, va).dtype == un(flat, vb).dtype);
    if let (Ok(a1), Ok(b1)) = fed {
        let (a2, b2) = (
            iota_effect(device, a1, c.rope_idx, ctx.pos),
            iota_effect(device, b1, c.rope_idx, ctx.pos),
        );
        if let (Ok(a2), Ok(b2)) = (a2, b2) {
            let (a3, b3) = (
                mask_block_effect(device, a2, c.mask_global, ctx.pos, None),
                mask_block_effect(device, b2, c.mask_global, ctx.pos, None),
            );
            if let (Ok(a3), Ok(b3)) = (a3, b3) {
                let w = Some(ctx.sliding_window);
                let (a4, b4) = (
                    mask_block_effect(device, a3, c.mask_sliding, ctx.pos, w),
                    mask_block_effect(device, b3, c.mask_sliding, ctx.pos, w),
                );
                if let (Ok(a4), Ok(b4)) = (a4, b4) {
                    assert(of_mode(mode, c.ids.id as int) && of_mode(mode, c.rope_idx.id as int));
                    assert(of_mode(mode, c.mask_global.id as int));
                    assert(of_mode(mode, c.mask_sliding.id as int));
                    assert forall|id: int| !of_mode(mode, id) implies #[trigger] a4[id]
                        == a[id] by {}
                    assert forall|id: int| !of_mode(mode, id) implies #[trigger] b4[id]
                        == b[id] by {}
                    lemma_resting_frame(m, model, mode, 0, p, 0, kv, buffers, (a, a4), (b, b4));
                    assert(stands_at(mode, p, a4));
                    assert(stands_at(mode, p, b4));
                    assert forall|j: int| 0 <= j < kv.len() && !shares(model, j) implies kept_alike(
                        m,
                        #[trigger] kv[j],
                        upto(0, j, p, r),
                        a4,
                        b4,
                    ) by {
                        assert(upto(0, j, p, 0) == upto(0, j, p, r));
                    }
                    let (ia, ib) = (held(a4, c.ids), held(b4, c.ids));
                    assert(agree(m, ia, ib, r)) by {
                        assert forall|i: int| 0 <= i < r implies #[trigger] m.same(ia, i, ib, i) by {
                            assert(m.same(un(flat, va), i, un(flat, vb), i));
                        }
                    }
                    lemma_entered_alike(m, model, ia, ib, r);
                }
            }
        }
    }
}

/// Two runs that are about to enter the first layer at position `p`.
pub open spec fn entries_alike<V>(
    m: Meaning<V>,
    model: TextModel,
    ctx: StaticCtx,
    p: int,
    r: int,
    kv: Seq<LayerKv>,
    buffers: Seq<Buf>,
    a: Result<Entry, Refused>,
    b: Result<Entry, Refused>,
) -> bool {
    match (a, b) {
        (Ok(x), Ok(y)) => {
            &&& x.mode == ModeVal::ChunkDev(ctx) && y.mode == x.mode
            &&& agree_opt(m, x.plis, y.plis, r)
            &&& agree(m, x.x, y.x, r) && r <= m.len(x.x.term)
            &&& settled(m, model, x.mode, 0, p, r, kv, buffers, x.bufs, y.bufs)
        },
        (Err(d), Err(e)) => d.error == e.error,
        _ => false,
    }
}

/// The token numbers of a chunk agree in the rows that belong to the prompt.
proof fn lemma_chunk_ids(a: TaskVal, b: TaskVal, base: int)
    requires
        paddings(a, b, base),
    ensures
        (a matches TaskVal::Graph { ctx, cctx, padded, at, chunks, total } && {
            let (ia, ib) = (
                chunk_ids(padded, cctx.chunk, at),
                chunk_ids(b->Graph_padded, cctx.chunk, at),
            );
            &&& ia.len() == cctx.chunk && ib.len() == ia.len()
            &&& 0 < real_rows(a) <= ia.len()
            &&& forall|i: int| 0 <= i < real_rows(a) ==> #[trigger] ia[i] == ib[i]
            &&& at * cctx.chunk + cctx.chunk <= padded.len()
            &&& at + 1 < chunks ==> (at + 1) * cctx.chunk == at * cctx.chunk + cctx.chunk
            &&& at + 1 == chunks ==> at * cctx.chunk + last_rows(a) == total
        }),
{
    if let TaskVal::Graph { ctx, cctx, padded, at, chunks, total } = a {
        let c = cctx.chunk as int;
        let padded2 = b->Graph_padded;
        assert((at + 1) * c == at * c + c) by (nonlinear_arith);
        assert((at + 1) * c <= chunks * c) by (nonlinear_arith)
            requires
                at < chunks,
                0 < c,
        ;
        assert(0 <= at * c) by (nonlinear_arith)
            requires
                0 <= at,
                0 < c,
        ;
        if at + 1 < chunks {
            assert((at + 2) * c <= chunks * c) by (nonlinear_arith)
                requires
                    at + 2 <= chunks,
                    0 < c,
            ;
            assert((at + 2) * c == at * c + 2 * c) by (nonlinear_arith);
        }
        let (ia, ib) = (chunk_ids(padded, cctx.chunk, at), chunk_ids(padded2, cctx.chunk, at));
        assert forall|i: int| 0 <= i < real_rows(a) implies #[trigger] ia[i] == ib[i] by {
            assert(padded[at * c + i] == padded2[at * c + i]);
        }
    }
}

/// The rest of a prefill from layer `i` of the chunk at hand on, in two jobs.
#[verifier::rlimit(40)]
proof fn lemma_prefills_alike<V>(
    m: Meaning<V>,
    model: TextModel,
    device: Device,
    a: TaskVal,
    b: TaskVal,
    base: int,
    plis: (Option<Val>, Option<Val>),
    i: int,
    f: Flow,
    g: Flow,
)
    requires
        m.masks(),
        paddings(a, b, base),
        0 <= i <= model.layers.len(),
        agree_opt(m, plis.0, plis.1, real_rows(a)),
        flows_alike(m, model, graph_mode(a), i, chunk_base(a, base), real_rows(a), f, g),
    ensures
        prefills_alike(
            m,
            model,
            a,
            base,
            model.drive(device, a, graph_mode(a), plis.0, i, f),
            model.drive(device, b, graph_mode(a), plis.1, i, g),
        ),
    decreases a.left(),
{
    reveal(TextModel::next);
    let mode = graph_mode(a);
    let (p, r) = (chunk_base(a, base), real_rows(a));
    lemma_chunk_ids(a, b, base);
    lemma_runs_alike(m, model, device, mode, plis, i, p, r, f, g);
    if let (
        TaskVal::Graph { ctx, cctx, padded, at, chunks, total },
        Ran::Through(x),
        Ran::Through(y),
    ) = (a, model.run(device, mode, plis.0, i, f), model.run(device, mode, plis.1, i, g)) {
        let padded2 = b->Graph_padded;
        let pos = ctx.pos.id as int;
        let len = model.layers.len() as int;
        let n = cctx.chunk as u32;
        assert(n == cctx.chunk);
        assert(of_mode(mode, pos));
        if let (Ok(c), Ok(d)) = (
            advance_effect(device, x.bufs, ctx.pos, n),
            advance_effect(device, y.bufs, ctx.pos, n),
        ) {
            assert forall|id: int| !of_mode(mode, id) implies #[trigger] c[id] == x.bufs[id] by {}
            assert forall|id: int| !of_mode(mode, id) implies #[trigger] d[id] == y.bufs[id] by {}
            lemma_resting_frame(
                m,
                model,
                mode,
                len,
                p,
                r,
                x.kv,
                x.buffers,
                (x.bufs, c),
                (y.bufs, d),
            );
            lemma_rested(m, model, mode, len, p, r, x.kv, x.buffers, c, d);
            if at + 1 < chunks {
                let next = (at + 1) as usize;
                let (ta, tb) = (
                    TaskVal::Graph { ctx, cctx, padded, at: next, chunks, total },
                    TaskVal::Graph { ctx, cctx, padded: padded2, at: next, chunks, total },
                );
                assert(paddings(ta, tb, base));
                lemma_chunk_ids(ta, tb, base);
                assert(chunk_base(ta, base) == p + cctx.chunk);
                lemma_fed_alike(
                    m,
                    model,
                    device,
                    ctx,
                    cctx,
                    (chunk_ids(padded, cctx.chunk, next), chunk_ids(padded2, cctx.chunk, next)),
                    p + r,
                    real_rows(ta),
                    x.kv,
                    x.buffers,
                    c,
                    d,
                );
                if let (Ok(e), Ok(h)) = (
                    model.enter_fed(device, ctx, cctx, chunk_ids(padded, cctx.chunk, next), c),
                    model.enter_fed(device, ctx, cctx, chunk_ids(padded2, cctx.chunk, next), d),
                ) {
                    let none = Shared::none();
                    lemma_prefills_alike(
                        m,
                        model,
                        device,
                        ta,
                        tb,
                        base,
                        (e.plis, h.plis),
                        0,
                        Flow { x: e.x, bufs: e.bufs, buffers: x.buffers, kv: x.kv, shared: none },
                        Flow { x: h.x, bufs: h.bufs, buffers: x.buffers, kv: x.kv, shared: none },
                    );
                }
            } else {
                if let (Ok(c1), Ok(d1)) = (
                    u32_effect(device, c, ctx.pos, total as u32),
                    u32_effect(device, d, ctx.pos, total as u32),
                ) {
                    assert(total as u32 == total);
                    assert(p + r == base + total);
                    assert forall|id: int| !of_mode(mode, id) implies #[trigger] c1[id]
                        == c[id] by {}
                    assert forall|id: int| !of_mode(mode, id) implies #[trigger] d1[id]
                        == d[id] by {}
                    lemma_resting_frame(
                        m,
                        model,
                        mode,
                        0,
                        p + r,
                        0,
                        x.kv,
                        x.buffers,
                        (c, c1),
                        (d, d1),
                    );
                }
            }
        }
    }
}

/// Runs through all layers rest alike up to the rows that they have written.
proof fn lemma_rested<V>(
    m: Meaning<V>,
    model: TextModel,
    mode: ModeVal,
    len: int,
    p: int,
    r: int,
    kv: Seq<LayerKv>,
    buffers: Seq<Buf>,
    a: Bufs,
    b: Bufs,
)
    requires
        len == kv.len(),
        resting(m, model, mode, len, p, r, kv, buffers, a, b),
    ensures
        resting(m, model, mode, 0, p + r, 0, kv, buffers, a, b),
{
    assert forall|j: int| 0 <= j < kv.len() && !shares(model, j) implies kept_alike(
        m,
        #[trigger] kv[j],
        upto(0, j, p + r, 0),
        a,
        b,
    ) by {
        assert(upto(len, j, p, r) == upto(0, j, p + r, 0));
    }
}

/// What the last chunk is filled up with does not matter: two prefills of the same
/// prompt, from buffers that agree on the rows before it, end alike.
pub proof fn law_padding_does_not_matter<V>(
    m: Meaning<V>,
    model: TextModel,
    device: Device,
    tasks: (TaskVal, TaskVal),
    base: int,
    buffers: Seq<Buf>,
    a: Bufs,
    b: Bufs,
)
    requires
        m.masks(),
        paddings(tasks.0, tasks.1, base),
        tasks.0->Graph_at == 0,
        rests_alike(m, model, graph_mode(tasks.0), base, model.kv@, buffers, a, b),
    ensures
        (tasks.0 matches TaskVal::Graph { ctx, cctx, padded, at, chunks, total } && {
            let padded2 = tasks.1->Graph_padded;
            prefills_alike(
                m,
                model,
                tasks.0,
                base,
                model.started(
                    device,
                    tasks.0,
                    model.enter_fed(device, ctx, cctx, chunk_ids(padded, cctx.chunk, 0), a),
                    buffers,
                ),
                model.started(
                    device,
                    tasks.1,
                    model.enter_fed(device, ctx, cctx, chunk_ids(padded2, cctx.chunk, 0), b),
                    buffers,
                ),
            )
        }),
{
    if let TaskVal::Graph { ctx, cctx, padded, at, chunks, total } = tasks.0 {
        let padded2 = tasks.1->Graph_padded;
        lemma_chunk_ids(tasks.0, tasks.1, base);
        assert(chunk_base(tasks.0, base) == base) by {
            assert(0 * cctx.chunk == 0);
        }
        let ids = (chunk_ids(padded, cctx.chunk, 0), chunk_ids(padded2, cctx.chunk, 0));
        lemma_fed_alike(
            m,
            model,
            device,
            ctx,
            cctx,
            ids,
            base,
            real_rows(tasks.0),
            model.kv@,
            buffers,
            a,
            b,
        );
        if let (Ok(e), Ok(h)) = (
            model.enter_fed(device, ctx, cctx, ids.0, a),
            model.enter_fed(device, ctx, cctx, ids.1, b),
        ) {
            let none = Shared::none();
            lemma_prefills_alike(
                m,
                model,
                device,
                tasks.0,
                tasks.1,
                base,
                (e.plis, h.plis),
                0,
                Flow { x: e.x, bufs: e.bufs, buffers, kv: model.kv@, shared: none },
                Flow { x: h.x, bufs: h.bufs, buffers, kv: model.kv@, shared: none },
            );
        }
    }
}

/// Values that hold the last row of the prompt, cut out of the outputs of two
/// prefills that agree in it, have the same logits.
pub proof fn law_last_row_decides_the_logits<V>(
    m: Meaning<V>,
    model: TextModel,
    hidden: (Val, Val),
    last: (Val, Val),
    r: int,
)
    requires
        0 < r,
        agree(m, hidden.0, hidden.1, r),
        m.same(last.0, 0, hidden.0, r - 1),
        m.same(last.1, 0, hidden.1, r - 1),
        last.0.shape == last.1.shape && last.0.dtype == last.1.dtype,
        m.len(last.0.term) == m.len(last.1.term),
    ensures
        m.same(model.logits(last.0), 0, model.logits(last.1), 0),
{
    assert(m.same(hidden.0, r - 1, hidden.1, r - 1));
    assert(agree(m, last.0, last.1, 1)) by {
        assert forall|i: int| 0 <= i < 1 implies #[trigger] m.same(last.0, i, last.1, i) by {
            assert(m.same(last.0, 0, last.1, 0));
        }
    }
    law_logits_row_by_row(m, model, last.0, last.1, 1);
}

/// Two prefills that wait alike, and get the same experts for the rows that belong
/// to the prompt, go on alike.
pub proof fn law_resumed_padding_does_not_matter<V>(
    m: Meaning<V>,
    model: TextModel,
    device: Device,
    p: Pass,
    q: Pass,
    plan: (Seq<Seq<usize>>, Seq<Seq<usize>>),
    base: int,
    buffers: Seq<Buf>,
    a: Bufs,
    b: Bufs,
)
    requires
        m.masks(),
        paddings(p.task@, q.task@, base),
        plans_agree(plan.0, plan.1, real_rows(p.task@)),
        p.mode@ == graph_mode(p.task@),
        passes_alike(
            m,
            model,
            p,
            q,
            chunk_base(p.task@, base),
            real_rows(p.task@),
            buffers,
            a,
            b,
        ),
    ensures
        prefills_alike(
            m,
            model,
            p.task@,
            base,
            model.resumed(device, p, plan.0, a, buffers),
            model.resumed(device, q, plan.1, b, buffers),
        ),
{
    let r = real_rows(p.task@);
    let i = p.layer as int;
    let l = model.layers[i];
    let (h, k) = (p.half, q.half);
    let plis = (opt_val(p.plis), opt_val(q.plis));
    lemma_slices_agree(m, plis, i, r);
    let (pa, pb) = (slice_of(plis.0, i), slice_of(plis.1, i));
    let probs = (opt_val(h.probs), opt_val(k.probs));
    lemma_agree_finished(
        m,
        l,
        device,
        (h.residual@, k.residual@),
        (h.mlp_out@, k.mlp_out@),
        probs,
        plan,
        (pa, pb),
        r,
    );
    if let (Ok(y), Ok(z)) = (
        l.finished(device, h.residual@, h.mlp_out@, probs.0, plan.0, pa),
        l.finished(device, k.residual@, k.mlp_out@, probs.1, plan.1, pb),
    ) {
        lemma_prefills_alike(
            m,
            model,
            device,
            p.task@,
            q.task@,
            base,
            plis,
            i + 1,
            Flow { x: y, bufs: a, buffers, kv: model.kv@, shared: p.shared@ },
            Flow { x: z, bufs: b, buffers, kv: model.kv@, shared: q.shared@ },
        );
    }
}

/// A prefill of a prompt does what one does that fills the last chunk up with
/// other token numbers.
pub proof fn law_prompt_prefill_ignores_padding<V>(
    m: Meaning<V>,
    model: TextModel,
    device: Device,
    ids: Seq<u32>,
    other: Seq<u32>,
    base: int,
    buffers: Seq<Buf>,
    a: Bufs,
    b: Bufs,
)
    requires
        m.masks(),
        0 < ids.len() <= usize::MAX,
        0 <= base,
        model.chunk_state() matches Ok((ctx, c)) && {
            &&& 0 < c.chunk && ctx.chunk == Some(c) && mode_apart(ctx)
            &&& other.len() == padded_ids(ids, c.chunk).len()
            &&& base + other.len() < 0x1_0000_0000
            &&& rests_alike(m, model, ModeVal::ChunkDev(ctx), base, model.kv@, buffers, a, b)
        },
        forall|i: int| 0 <= i < ids.len() ==> #[trigger] other[i] == ids[i],
    ensures
        (model.chunk_state() matches Ok((ctx, c)) && {
            let chunks = chunk_count(ids.len() as int, c.chunk as int) as usize;
            let total = ids.len() as usize;
            let task = |padded: Seq<u32>|
                TaskVal::Graph { ctx, cctx: c, padded, at: 0, chunks, total };
            prefills_alike(
                m,
                model,
                task(padded_ids(ids, c.chunk)),
                base,
                model.graph_job(device, ids, a, buffers),
                model.started(
                    device,
                    task(other),
                    model.enter_fed(device, ctx, c, chunk_ids(other, c.chunk, 0), b),
                    buffers,
                ),
            )
        }),
{
    if let Ok((ctx, c)) = model.chunk_state() {
        let padded = padded_ids(ids, c.chunk);
        let n = chunk_count(ids.len() as int, c.chunk as int);
        let total = ids.len() as usize;
        lemma_chunk_count(ids.len() as int, c.chunk as int);
        let chunks = n as usize;
        assert(chunks == n);
        let tasks = (
            TaskVal::Graph { ctx, cctx: c, padded, at: 0, chunks, total },
            TaskVal::Graph { ctx, cctx: c, padded: other, at: 0, chunks, total },
        );
        assert(paddings(tasks.0, tasks.1, base)) by {
            assert forall|i: int| 0 <= i < total implies #[trigger] padded[i] == other[i] by {
                assert(other[i] == ids[i]);
            }
        }
        law_padding_does_not_matter(m, model, device, tasks, base, buffers, a, b);
    }
}

/// Rotation by the rows from a position on, counted on the device or given by the
/// host.
proof fn lemma_turned_alike<V>(
    m: Meaning<V>,
    r: RotaryEmbedding,
    x: Val,
    idx: Val,
    pos: usize,
    len: usize,
    i: int,
)
    requires
        counted_from(idx.term) == Some(pos as int),
    ensures
        m.same(r.at_rows(x, idx), i, r.at_offset(x, pos, len), i),
        m.len(r.at_rows(x, idx).term) == m.len(x.term),
        m.len(r.at_offset(x, pos, len).term) == m.len(x.term),
{
    let row = |w: Weight| bin(Op::IndexSelect(0), leaf(Op::Param(w)), idx);
    let slice = |w: Weight| un(Op::Narrow { dim: 0, start: pos, len }, leaf(Op::Param(w)));
    lemma_rows_from(m, r.cos, idx, i);
    lemma_rows_from(m, r.sin, idx, i);
    lemma_looked_up(m, r.cos, pos, len, i);
    lemma_looked_up(m, r.sin, pos, len, i);
    lemma_same_tri(
        m,
        Op::Rope,
        (x, row(r.cos), row(r.sin)),
        i,
        (x, slice(r.cos), slice(r.sin)),
        i,
    );
    lemma_same_tri(m, Op::Rope, (x, row(r.cos), row(r.sin)), i, (x, row(r.cos), row(r.sin)), i);
    reveal(tri);
}

/// A layer's keys and values hold the same in two runs.
pub open spec fn holds_alike<V>(m: Meaning<V>, kv: LayerKv, a: Bufs, b: Bufs) -> bool {
    kv.statics matches Some(p) ==> {
        &&& forall|j: int| #[trigger] m.at(a[p.k.id as int], j) == m.at(b[p.k.id as int], j)
        &&& forall|j: int| #[trigger] m.at(a[p.v.id as int], j) == m.at(b[p.v.id as int], j)
    }
}

/// A chunk whose position is on the device leaves the rows of keys and values that
/// a chunk at the same position on the host leaves: all of them are the same
/// afterwards if they were before.
pub proof fn law_device_chunk_leaves_the_rows_of_a_host_chunk<V>(
    m: Meaning<V>,
    f: Attention,
    device: Device,
    x: Val,
    ctx: StaticCtx,
    pos: usize,
    kv: LayerKv,
    buffers: Seq<Buf>,
    host: Bufs,
    dev: Bufs,
    shared: (Shared, Shared),
)
    requires
        !f.is_kv_shared,
        m.len(x.term) == x.shape.d1,
        ctx.chunk matches Some(c) && counted_from(dev[c.rope_idx.id as int]) == Some(pos as int),
        counted(dev[ctx.pos.id as int]) == Some(pos as int),
        own_buffers(seq![kv], ModeVal::ChunkDev(ctx), buffers.len() as int),
        kv.statics is None ==> buffers.len() + 2 <= usize::MAX,
        holds_alike(m, kv, host, dev),
    ensures
        f.chunk_pass(device, x, ctx, pos, kv, buffers, host, shared.0) matches Ok(h) ==> {
            &&& f.chunk_dev_pass(device, x, ctx, kv, buffers, dev, shared.1) matches Ok(d)
            &&& h.kv == d.kv && h.buffers == d.buffers && h.kv.statics is Some
            &&& holds_alike(m, h.kv, h.bufs, d.bufs)
        },
{
    if let Ok(h) = f.chunk_pass(device, x, ctx, pos, kv, buffers, host, shared.0) {
        let c = ctx.chunk->0;
        let mode = ModeVal::ChunkDev(ctx);
        let len = x.shape.d1;
        let rows = Op::Reshape(d3(f.num_kv_heads, len, f.head_dim));
        let idx = held(dev, c.rope_idx);
        let (kh, kd) = (
            f.rotary().at_offset(f.key(x, 1, len), pos, len),
            f.rotary().at_rows(f.key(x, 1, len), idx),
        );
        let (k0, k1) = (un(rows, kh), un(rows, kd));
        let v = un(rows, f.value(x, 1, len));
        lemma_agree_self(m, x, 0);
        lemma_agree_heads(m, f, x, x, len, 0);
        lemma_turned_alike(m, f.rotary(), f.key(x, 1, len), idx, pos, len, 0);
        lemma_un_extent(m, rows, kh);
        lemma_un_extent(m, rows, kd);
        lemma_un_extent(m, rows, f.value(x, 1, len));
        assert(k0.shape == d3(f.num_kv_heads, len, f.head_dim) && k1.shape == k0.shape && v.shape
            == k0.shape) by {
            reveal(un);
        }
        assert(k0.dtype == k1.dtype) by {
            reveal(un);
            reveal(tri);
        }
        let pair = f.static_pair(kv, buffers, ctx.max_seq, x.dtype);
        assert(seq![kv][0] == kv);
        assert(of_mode(mode, ctx.pos.id as int));
        assert(pair.k.id != pair.v.id && pair.k.id != ctx.pos.id && pair.v.id != ctx.pos.id) by {
            if kv.statics is Some {
                assert(uses(seq![kv][0], pair.k.id as int));
                assert(uses(seq![kv][0], pair.v.id as int));
            }
        }
        let (ki, vi) = (pair.k.id as int, pair.v.id as int);
        let (a, b) = (
            Attention::static_ready(kv, host, pair),
            Attention::static_ready(kv, dev, pair),
        );
        let at = b[ctx.pos.id as int];
        assert(at == dev[ctx.pos.id as int]);
        let d = f.chunk_dev_pass(device, x, ctx, kv, buffers, dev, shared.1);
        assert(d is Ok);
        let d = d->Ok_0;
        let op = Op::KvRows { pos, len };
        assert(h.bufs[ki] == bin_term(op, a[ki], k0.term));
        assert(h.bufs[vi] == bin_term(op, a[vi], v.term));
        assert(d.bufs[ki] == tri_term(Op::KvRowsAt, b[ki], k1.term, at));
        assert(d.bufs[vi] == tri_term(Op::KvRowsAt, b[vi], v.term, at));
        assert forall|j: int| #[trigger] m.at(h.bufs[ki], j) == m.at(d.bufs[ki], j) by {
            lemma_rows_written(m, b[ki], k1.term, at, j);
            lemma_turned_alike(m, f.rotary(), f.key(x, 1, len), idx, pos, len, j - pos);
            lemma_laid_out(m, rows, kh, j - pos);
            lemma_laid_out(m, rows, kd, j - pos);
            assert(kv.statics is Some ==> m.at(host[ki], j) == m.at(dev[ki], j));
        }
        assert forall|j: int| #[trigger] m.at(h.bufs[vi], j) == m.at(d.bufs[vi], j) by {
            lemma_rows_written(m, b[vi], v.term, at, j);
            assert(kv.statics is Some ==> m.at(host[vi], j) == m.at(dev[vi], j));
        }
    }
}

} // verus!
