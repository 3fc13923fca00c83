//! What holds of whole passes.
use vstd::prelude::*;

use crate::dtype::{DType, Device};
use crate::error::Error;
use crate::gemma4::attention::Attention;
use crate::gemma4::context::{LayerKv, Shared, StaticCtx};
use crate::gemma4::layer::{DecoderLayer, ModeVal};
use crate::gemma4::model::{
    chunk_count, chunk_len, padded_ids, slice_of, Flow, Next, Outcome, Ran, TaskVal,
    TextModel,
};
use crate::gemma4::norm::RotaryEmbedding;
use crate::kv_cache::{KvBufs, KvCache};
use crate::loader::Proj;
use crate::rows::{
    bare, cell_blocked, chunk_written, law_chunk_is_its_rows, law_mask_lets_through, law_row_joins,
    reading, resolved, rows_agree, rows_written,
};
use crate::shape::{d2, d3};
use crate::static_decode::{counted, kernel_dtype, law_counting_adds};
use crate::tape::{bin, held, tri, un, un_term, Buf, Bufs, Op, Term, Val};

verus! {

/// No layer keeps anything in buffer `id`.
pub open spec fn apart(kv: Seq<LayerKv>, id: int) -> bool {
    forall|i: int| 0 <= i < kv.len() ==> kept_apart(#[trigger] kv[i], id)
}

pub open spec fn kept_apart(kv: LayerKv, id: int) -> bool {
    &&& kv.cache.bufs matches Some(p) ==> p.k.id != id && p.v.id != id
    &&& kv.statics matches Some(p) ==> p.k.id != id && p.v.id != id
}

/// Attention in any mode changes no buffer but those of its own layer, which
/// stay apart from `id`.
proof fn lemma_attention_frame(
    layer: DecoderLayer,
    device: Device,
    mode: ModeVal,
    x: Val,
    kv: LayerKv,
    buffers: Seq<Buf>,
    bufs: Bufs,
    shared: Shared,
    id: int,
)
    requires
        kept_apart(kv, id),
        0 <= id < buffers.len(),
        buffers.len() + 2 <= usize::MAX,
    ensures
        match layer.attended(device, mode, x, kv, buffers, bufs, shared) {
            Ok(a) => {
                &&& a.bufs[id] == bufs[id]
                &&& kept_apart(a.kv, id)
                &&& buffers.len() <= a.buffers.len() <= buffers.len() + 2
            },
            Err(s) => s.bufs[id] == bufs[id] && kept_apart(s.kv, id),
        },
{
}

/// As [`lemma_attention_frame`], for the first half of a layer.
proof fn lemma_halfway_frame(
    layer: DecoderLayer,
    device: Device,
    mode: ModeVal,
    x: Val,
    kv: LayerKv,
    buffers: Seq<Buf>,
    bufs: Bufs,
    shared: Shared,
    id: int,
)
    requires
        kept_apart(kv, id),
        0 <= id < buffers.len(),
        buffers.len() + 2 <= usize::MAX,
    ensures
        match layer.halfway(device, mode, x, kv, buffers, bufs, shared) {
            Ok(h) => {
                &&& h.bufs[id] == bufs[id]
                &&& kept_apart(h.kv, id)
                &&& buffers.len() <= h.buffers.len() <= buffers.len() + 2
            },
            Err(s) => s.bufs[id] == bufs[id] && kept_apart(s.kv, id),
        },
{
    reveal(DecoderLayer::halfway);
    lemma_attention_frame(
        layer,
        device,
        mode,
        layer.input_layernorm.apply(x),
        kv,
        buffers,
        bufs,
        shared,
        id,
    );
}

/// A run through the layers changes no buffer but those of the layers, whether
/// it goes through, waits or is refused.
pub proof fn law_run_frame(
    m: TextModel,
    device: Device,
    mode: ModeVal,
    plis: Option<Val>,
    i: int,
    f: Flow,
    id: int,
)
    requires
        0 <= i <= m.layers.len(),
        f.kv.len() == m.layers.len(),
        apart(f.kv, id),
        0 <= id < f.buffers.len(),
        f.buffers.len() + 2 * (m.layers.len() - i) <= usize::MAX,
    ensures
        match m.run(device, mode, plis, i, f) {
            Ran::Failed(x) => x.bufs[id] == f.bufs[id] && apart(x.kv, id),
            Ran::Paused(j, h, kv) => h.bufs[id] == f.bufs[id] && apart(kv, id),
            Ran::Through(g) => {
                &&& g.bufs[id] == f.bufs[id]
                &&& apart(g.kv, id)
                &&& g.kv.len() == f.kv.len()
                &&& f.buffers.len() <= g.buffers.len() <= f.buffers.len() + 2 * (m.layers.len()
                    - i)
            },
        },
    decreases m.layers.len() - i,
{
    if i < m.layers.len() {
        let layer = m.layers[i];
        lemma_halfway_frame(
            layer,
            device,
            mode,
            f.x,
            f.kv[i],
            f.buffers,
            f.bufs,
            f.shared,
            id,
        );
        if let Ok(h) = layer.halfway(device, mode, f.x, f.kv[i], f.buffers, f.bufs, f.shared) {
            let kv = f.kv.update(i, h.kv);
            assert(apart(kv, id));
            if !layer.host_routed() {
                if let Ok(y) = layer.finished(
                    device,
                    h.residual,
                    h.mlp_out,
                    h.probs,
                    Seq::empty(),
                    slice_of(plis, i),
                ) {
                    law_run_frame(
                        m,
                        device,
                        mode,
                        plis,
                        i + 1,
                        Flow { x: y, bufs: h.bufs, buffers: h.buffers, kv, shared: h.shared },
                        id,
                    );
                }
            }
        }
    }
}

/// A layer that reuses states which no layer has stored is refused, in every
/// way of passing it, and nothing that it could change is changed.
pub proof fn law_missing_states_change_nothing(
    layer: DecoderLayer,
    device: Device,
    mode: ModeVal,
    x: Val,
    kv: LayerKv,
    buffers: Seq<Buf>,
    bufs: Bufs,
    shared: Shared,
)
    requires
        layer.self_attn.is_kv_shared,
        shared.slot(layer.self_attn.is_sliding) is None,
    ensures
        layer.attended(device, mode, x, kv, buffers, bufs, shared) matches Err(s) && {
            &&& s.kv == kv
            &&& s.shared == shared
            &&& s.bufs == bufs
            &&& s.buffers == buffers
        },
{
}

/// A chunk that would run past the end of the buffers is refused, and no row of
/// keys or values changes.
pub proof fn law_long_chunk_writes_nothing(
    a: Attention,
    device: Device,
    x: Val,
    ctx: StaticCtx,
    pos: usize,
    kv: LayerKv,
    buffers: Seq<Buf>,
    bufs: Bufs,
    shared: Shared,
)
    requires
        !a.is_kv_shared,
        x.shape.rank == 3,
        kv.statics matches Some(p) ==> p.k.shape == d3(a.num_kv_heads, ctx.max_seq, a.head_dim),
        pos + x.shape.d1 > ctx.max_seq,
    ensures
        a.chunk_pass(device, x, ctx, pos, kv, buffers, bufs, shared) matches Err(s) && {
            &&& s.error == (match a.rotary().beyond(pos, x.shape.d1) {
                Some(e) => e,
                None => Error::ExceedsMaxSeq { pos, len: x.shape.d1, max_seq: ctx.max_seq },
            })
            &&& s.shared == shared
            &&& kv.statics is Some ==> s.bufs == bufs && s.buffers == buffers && s.kv == kv
        },
{
    reveal(un);
}

/// A decode step that goes through advances the position by exactly one: the
/// only thing that happens to it is one increment.
pub proof fn law_step_advances(
    m: TextModel,
    device: Device,
    ids: Val,
    bufs: Bufs,
    buffers: Seq<Buf>,
)
    requires
        m.wf(),
        m.static_ctx is Some,
        apart(m.kv@, m.static_ctx->0.pos.id as int),
        m.static_ctx->0.pos.id < buffers.len(),
        m.static_ctx->0.mask_global.id != m.static_ctx->0.pos.id,
        m.static_ctx->0.mask_sliding.id != m.static_ctx->0.pos.id,
        buffers.len() + 2 * m.layers.len() <= usize::MAX,
    ensures
        ({
            let pos = m.static_ctx->0.pos.id as int;
            m.step_job(device, ids, bufs, buffers) matches Outcome::Done {
                hidden,
                logits,
                bufs: after,
                buffers: _,
                kv: _,
            } ==> after[pos] == un_term(Op::AddU32(1), bufs[pos])
        }),
{
    reveal(TextModel::next);
    let ctx = m.static_ctx->0;
    let x = m.embedded(ids);
    if let Ok(plis) = m.per_layer_input(ids, x) {
        if let Ok(b) = ctx.refreshed(device, bufs) {
            law_run_frame(
                m,
                device,
                ModeVal::Step(ctx),
                plis,
                0,
                Flow { x, bufs: b, buffers, kv: m.kv@, shared: Shared::none() },
                ctx.pos.id as int,
            );
        }
    }
}

/// Positions add up: a step that is read at position `p` leaves `p + 1` for the
/// next.
pub proof fn law_positions_add_up(
    m: TextModel,
    device: Device,
    ids: Val,
    bufs: Bufs,
    buffers: Seq<Buf>,
    p: int,
)
    requires
        m.wf(),
        m.static_ctx is Some,
        apart(m.kv@, m.static_ctx->0.pos.id as int),
        m.static_ctx->0.pos.id < buffers.len(),
        m.static_ctx->0.mask_global.id != m.static_ctx->0.pos.id,
        m.static_ctx->0.mask_sliding.id != m.static_ctx->0.pos.id,
        buffers.len() + 2 * m.layers.len() <= usize::MAX,
        0 <= p < u32::MAX,
        counted(bufs[m.static_ctx->0.pos.id as int]) == Some(p),
    ensures
        m.step_job(device, ids, bufs, buffers) matches Outcome::Done {
            hidden,
            logits,
            bufs: after,
            buffers: _,
            kv: _,
        } ==> counted(after[m.static_ctx->0.pos.id as int]) == Some(p + 1),
{
    law_step_advances(m, device, ids, bufs, buffers);
    law_counting_adds(bufs[m.static_ctx->0.pos.id as int], 1);
}

/// The layer needs no new static buffers: it has some, or reads another
/// layer's.
pub open spec fn settled(layer: DecoderLayer, kv: LayerKv) -> bool {
    layer.self_attn.is_kv_shared || kv.statics is Some
}

/// Once every layer has its buffers, a decode step makes none and changes
/// nothing that the host keeps: what is recorded for one step is what is
/// recorded for every later one, and the position enters only through the
/// contents of the buffers.
pub proof fn law_step_is_static(
    m: TextModel,
    device: Device,
    ctx: StaticCtx,
    plis: Option<Val>,
    i: int,
    f: Flow,
)
    requires
        0 <= i <= m.layers.len(),
        f.kv.len() == m.layers.len(),
        forall|j: int| 0 <= j < m.layers.len() ==> settled(m.layers[j], #[trigger] f.kv[j]),
    ensures
        match m.run(device, ModeVal::Step(ctx), plis, i, f) {
            Ran::Failed(e) => true,
            Ran::Paused(j, h, kv) => kv == f.kv && h.buffers == f.buffers,
            Ran::Through(g) => g.kv == f.kv && g.buffers == f.buffers,
        },
    decreases m.layers.len() - i,
{
    if i < m.layers.len() {
        let layer = m.layers[i];
        let mode = ModeVal::Step(ctx);
        assert(settled(layer, f.kv[i]));
        if let Ok(h) = layer.halfway(device, mode, f.x, f.kv[i], f.buffers, f.bufs, f.shared) {
            assert(h.kv == f.kv[i] && h.buffers == f.buffers) by {
                reveal(DecoderLayer::halfway);
            }
            assert(f.kv.update(i, h.kv) =~= f.kv);
            if !layer.host_routed() {
                if let Ok(y) = layer.finished(
                    device,
                    h.residual,
                    h.mlp_out,
                    h.probs,
                    Seq::empty(),
                    slice_of(plis, i),
                ) {
                    law_step_is_static(
                        m,
                        device,
                        ctx,
                        plis,
                        i + 1,
                        Flow {
                            x: y,
                            bufs: h.bufs,
                            buffers: h.buffers,
                            kv: f.kv,
                            shared: h.shared,
                        },
                    );
                }
            }
        }
    }
}

/// A step settles every layer that it passes.
pub proof fn law_step_settles(
    m: TextModel,
    device: Device,
    ctx: StaticCtx,
    plis: Option<Val>,
    i: int,
    f: Flow,
)
    requires
        0 <= i <= m.layers.len(),
        f.kv.len() == m.layers.len(),
        forall|j: int| 0 <= j < i ==> settled(m.layers[j], #[trigger] f.kv[j]),
    ensures
        m.run(device, ModeVal::Step(ctx), plis, i, f) matches Ran::Through(g) ==> g.kv.len()
            == m.layers.len() && forall|j: int|
            0 <= j < m.layers.len() ==> settled(m.layers[j], #[trigger] g.kv[j]),
    decreases m.layers.len() - i,
{
    if i < m.layers.len() {
        let layer = m.layers[i];
        let mode = ModeVal::Step(ctx);
        if let Ok(h) = layer.halfway(device, mode, f.x, f.kv[i], f.buffers, f.bufs, f.shared) {
            assert(settled(layer, h.kv)) by {
                reveal(DecoderLayer::halfway);
            }
            let kv = f.kv.update(i, h.kv);
            assert forall|j: int| 0 <= j < i + 1 implies settled(
                m.layers[j],
                #[trigger] kv[j],
            ) by {
                if j < i {
                    assert(settled(m.layers[j], f.kv[j]));
                }
            }
            if !layer.host_routed() {
                if let Ok(y) = layer.finished(
                    device,
                    h.residual,
                    h.mlp_out,
                    h.probs,
                    Seq::empty(),
                    slice_of(plis, i),
                ) {
                    law_step_settles(
                        m,
                        device,
                        ctx,
                        plis,
                        i + 1,
                        Flow { x: y, bufs: h.bufs, buffers: h.buffers, kv, shared: h.shared },
                    );
                }
            }
        }
    }
}

/// The position that a prefill ends at.
pub open spec fn pinned(task: TaskVal) -> Option<(Buf, usize)> {
    match task {
        TaskVal::Chunked { ctx, ids, chunk, pos, total } => Some((ctx.pos, total)),
        TaskVal::Graph { ctx, cctx, padded, at, chunks, total } => Some((ctx.pos, total)),
        _ => None,
    }
}

/// A prefill that goes through, in chunks of any kind, leaves the position at
/// the real length of the prompt, padding or not.
pub proof fn law_prefill_pins_position(
    m: TextModel,
    device: Device,
    task: TaskVal,
    mode: ModeVal,
    plis: Option<Val>,
    i: int,
    f: Flow,
)
    ensures
        pinned(task) matches Some((pos, total)) ==> (m.drive(device, task, mode, plis, i, f)
            matches Outcome::Done { hidden, logits, bufs, buffers, kv } ==> bufs[pos.id as int]
            == Term::Leaf(Op::U32(total as u32))),
    decreases task.left(),
{
    reveal(TextModel::next);
    if let Ran::Through(g) = m.run(device, mode, plis, i, f) {
        if let Next::Again(next, e) = m.next(device, task, g.x, g.bufs) {
            law_prefill_pins_position(
                m,
                device,
                next,
                e.mode,
                e.plis,
                0,
                Flow {
                    x: e.x,
                    bufs: e.bufs,
                    buffers: g.buffers,
                    kv: g.kv,
                    shared: Shared::none(),
                },
            );
        }
    }
}

/// A chunked prefill that is refused on the way leaves the position where it
/// was; this holds of one that is resumed as well.
pub proof fn law_refused_chunk_keeps_position(
    m: TextModel,
    device: Device,
    task: TaskVal,
    mode: ModeVal,
    plis: Option<Val>,
    i: int,
    f: Flow,
)
    requires
        task is Chunked,
        0 <= i <= m.layers.len(),
        f.kv.len() == m.layers.len(),
        apart(f.kv, task->Chunked_ctx.pos.id as int),
        task->Chunked_ctx.pos.id < f.buffers.len(),
        task.left() >= 0,
        f.buffers.len() + 2 * (m.layers.len() * (task.left() + 1)) <= usize::MAX,
    ensures
        m.drive(device, task, mode, plis, i, f) matches Outcome::Failed(x) ==> x.bufs[
            task->Chunked_ctx.pos.id as int
        ] == f.bufs[task->Chunked_ctx.pos.id as int],
    decreases task.left(),
{
    reveal(TextModel::next);
    let id = task->Chunked_ctx.pos.id as int;
    let (n, left) = (m.layers.len() as int, task.left());
    assert(n <= n * (left + 1)) by (nonlinear_arith)
        requires
            n >= 0,
            left >= 0,
    ;
    law_run_frame(m, device, mode, plis, i, f, id);
    if let Ran::Through(g) = m.run(device, mode, plis, i, f) {
        if let Next::Again(next, e) = m.next(device, task, g.x, g.bufs) {
            let rest = next.left();
            assert(n * (rest + 1) + n <= n * (left + 1)) by (nonlinear_arith)
                requires
                    n >= 0,
                    rest + 1 <= left,
            ;
            law_refused_chunk_keeps_position(
                m,
                device,
                next,
                e.mode,
                e.plis,
                0,
                Flow {
                    x: e.x,
                    bufs: e.bufs,
                    buffers: g.buffers,
                    kv: g.kv,
                    shared: Shared::none(),
                },
            );
        }
    }
}

/// A refused chunked prefill leaves the position where it was; an empty prompt
/// leaves it at zero.
pub proof fn law_refused_prefill_keeps_position(
    m: TextModel,
    device: Device,
    ids: Val,
    chunk: usize,
    bufs: Bufs,
    buffers: Seq<Buf>,
)
    requires
        m.wf(),
        m.static_ctx is Some,
        apart(m.kv@, m.static_ctx->0.pos.id as int),
        m.static_ctx->0.pos.id < buffers.len(),
        buffers.len() + 2 * (m.layers.len() * (ids.shape.d1 + 1)) <= usize::MAX,
    ensures
        m.chunked_job(device, ids, chunk, bufs, buffers) matches Outcome::Failed(x) ==> {
            let pos = m.static_ctx->0.pos.id as int;
            if x.error == Error::EmptyPrompt && ids.shape.rank == 2 && ids.shape.d1 == 0 {
                x.bufs[pos] == Term::Leaf(Op::U32(0))
            } else {
                x.bufs[pos] == bufs[pos]
            }
        },
{
    let ctx = m.static_ctx->0;
    let total = ids.shape.d1;
    if ids.shape.rank == 2 && total > 0 {
        if let Ok(e) = m.enter_chunk(ctx, ids, chunk, 0, total, bufs) {
            law_refused_chunk_keeps_position(
                m,
                device,
                TaskVal::Chunked { ctx, ids, chunk, pos: 0, total },
                e.mode,
                e.plis,
                0,
                Flow { x: e.x, bufs: e.bufs, buffers, kv: m.kv@, shared: Shared::none() },
            );
        }
    }
}

/// The chunks of a prefill follow each other without gap or overlap: each is
/// not empty, stays within the prompt, and all but the last are full.
pub proof fn law_chunks_cover(chunk: usize, pos: usize, total: usize)
    requires
        0 < chunk,
        pos < total,
    ensures
        0 < chunk_len(chunk, pos, total) <= chunk,
        pos + chunk_len(chunk, pos, total) <= total,
        pos + chunk_len(chunk, pos, total) < total ==> chunk_len(chunk, pos, total) == chunk,
{
}

/// Padding is shorter than a chunk, and the row that the logits of a padded
/// prefill come from is the one that the last real token went into.
pub proof fn law_padded_row(total: int, chunk: int)
    requires
        0 < total,
        0 < chunk,
    ensures
        ({
            let chunks = chunk_count(total, chunk);
            let pad = chunks * chunk - total;
            let row = chunk - 1 - pad;
            &&& 0 <= pad < chunk
            &&& 0 <= row < chunk
            &&& (chunks - 1) * chunk + row == total - 1
        }),
{
    vstd::arithmetic::div_mod::lemma_fundamental_div_mod(total, chunk);
    let q = total / chunk;
    assert(chunk * q == q * chunk) by (nonlinear_arith);
    assert((q + 1) * chunk == q * chunk + chunk) by (nonlinear_arith);
    assert((q - 1) * chunk == q * chunk - chunk) by (nonlinear_arith);
}

/// The real tokens stay where they were, and padding is zeros.
pub proof fn law_padding_keeps_tokens(ids: Seq<u32>, chunk: usize, i: int)
    requires
        0 < chunk,
        0 <= i < padded_ids(ids, chunk).len(),
    ensures
        padded_ids(ids, chunk)[i] == (if i < ids.len() { ids[i] } else { 0 }),
{
}

/// Every layer that reuses keys and values comes after a layer of its type
/// that stores them.
pub open spec fn sharing_served(m: TextModel) -> bool {
    forall|i: int|
        0 <= i < m.layers.len() && (#[trigger] m.layers[i]).self_attn.is_kv_shared ==> exists|j: int|
            0 <= j < i && stores_for(#[trigger] m.layers[j], m.layers[i].self_attn.is_sliding)
}

pub open spec fn stores_for(layer: DecoderLayer, sliding: bool) -> bool {
    &&& !layer.self_attn.is_kv_shared
    &&& layer.self_attn.store_full_length_kv
    &&& layer.self_attn.is_sliding == sliding
}

/// What the layers before `i` have stored is there.
pub open spec fn stored_so_far(m: TextModel, i: int, shared: Shared) -> bool {
    forall|j: int, sliding: bool|
        0 <= j < i && j < m.layers.len() && #[trigger] stores_for(m.layers[j], sliding)
            ==> shared.slot(sliding) is Some
}

/// A layer that is served does not run into missing states, and keeps and adds
/// to what is stored.
#[verifier::spinoff_prover]
#[verifier::rlimit(60)]
proof fn lemma_served(
    layer: DecoderLayer,
    device: Device,
    mode: ModeVal,
    x: Val,
    kv: LayerKv,
    buffers: Seq<Buf>,
    bufs: Bufs,
    shared: Shared,
)
    requires
        layer.self_attn.is_kv_shared ==> shared.slot(layer.self_attn.is_sliding) is Some,
    ensures
        match layer.halfway(device, mode, x, kv, buffers, bufs, shared) {
            Err(s) => s.error != Error::SharedKvMissing,
            Ok(h) => forall|sliding: bool|
                shared.slot(sliding) is Some || stores_for(layer, sliding)
                    ==> #[trigger] h.shared.slot(sliding) is Some,
        },
{
    reveal(DecoderLayer::halfway);
}

proof fn lemma_finish_asks_no_kv(
    layer: DecoderLayer,
    device: Device,
    residual: Val,
    mlp_out: Val,
    probs: Option<Val>,
    plan: Seq<Seq<usize>>,
    pli: Option<Val>,
)
    ensures
        layer.finished(device, residual, mlp_out, probs, plan, pli) != Err::<Val, Error>(
            Error::SharedKvMissing,
        ),
{
    reveal(DecoderLayer::finished);
}

/// Where every reusing layer is served, no pass in any mode runs into missing
/// key/value states.
pub proof fn law_shared_kv_is_there(
    m: TextModel,
    device: Device,
    mode: ModeVal,
    plis: Option<Val>,
    i: int,
    f: Flow,
)
    requires
        0 <= i <= m.layers.len(),
        sharing_served(m),
        stored_so_far(m, i, f.shared),
    ensures
        m.run(device, mode, plis, i, f) matches Ran::Failed(x) ==> x.error
            != Error::SharedKvMissing,
    decreases m.layers.len() - i,
{
    if i < m.layers.len() {
        let layer = m.layers[i];
        lemma_served(layer, device, mode, f.x, f.kv[i], f.buffers, f.bufs, f.shared);
        if let Ok(h) = layer.halfway(device, mode, f.x, f.kv[i], f.buffers, f.bufs, f.shared) {
            if !layer.host_routed() {
                lemma_finish_asks_no_kv(
                    layer,
                    device,
                    h.residual,
                    h.mlp_out,
                    h.probs,
                    Seq::empty(),
                    slice_of(plis, i),
                );
                if let Ok(y) = layer.finished(
                    device,
                    h.residual,
                    h.mlp_out,
                    h.probs,
                    Seq::empty(),
                    slice_of(plis, i),
                ) {
                    law_shared_kv_is_there(
                        m,
                        device,
                        mode,
                        plis,
                        i + 1,
                        Flow {
                            x: y,
                            bufs: h.bufs,
                            buffers: h.buffers,
                            kv: f.kv.update(i, h.kv),
                            shared: h.shared,
                        },
                    );
                }
            }
        }
    }
}

/// A model made from a configuration serves every reusing layer whose type
/// occurs among the layers that have keys and values of their own.
pub proof fn law_config_serves(
    m: TextModel,
    l: crate::loader::Loader,
    cfg: crate::gemma4::config::Gemma4TextConfig,
    vb: Seq<char>,
    quant: Option<crate::quant::GgmlDType>,
    device: Device,
)
    requires
        cfg.valid(),
        m.layers.len() == cfg.num_hidden_layers,
        m.asked(l, cfg, vb, quant, device),
        forall|i: int|
            0 <= i < m.layers.len() && cfg.shared(i) ==> exists|j: int|
                0 <= j < cfg.first_shared() && #[trigger] cfg.layer_types[j] == #[trigger] cfg.layer_types[i],
    ensures
        sharing_served(m),
{
    assert forall|i: int|
        0 <= i < m.layers.len() && (#[trigger] m.layers[i]).self_attn.is_kv_shared implies exists|
        j: int,
    |
        0 <= j < i && stores_for(#[trigger] m.layers[j], m.layers[i].self_attn.is_sliding) by {
        assert(TextModel::layer_asked(m.layers[i], l, cfg, vb, quant, device, i));
        assert(cfg.shared(i));
        let j = choose|j: int|
            0 <= j < cfg.first_shared() && #[trigger] cfg.layer_types[j] == cfg.layer_types[i];
        let r = cfg.law_one_store_per_type(j);
        assert(TextModel::layer_asked(m.layers[r], l, cfg, vb, quant, device, r));
        assert(stores_for(m.layers[r], m.layers[i].self_attn.is_sliding));
    }
}

/// The layers from `i` on with the plans known beforehand, one per layer.
pub open spec fn straight(
    m: TextModel,
    device: Device,
    mode: ModeVal,
    plis: Option<Val>,
    plans: Seq<Seq<Seq<usize>>>,
    i: int,
    f: Flow,
) -> Result<Flow, Error>
    decreases m.layers.len() - i,
{
    if i < 0 || i >= m.layers.len() {
        Ok(f)
    } else {
        let layer = m.layers[i];
        match layer.halfway(device, mode, f.x, f.kv[i], f.buffers, f.bufs, f.shared) {
            Err(s) => Err(s.error),
            Ok(h) => match layer.finished(
                device,
                h.residual,
                h.mlp_out,
                h.probs,
                if layer.host_routed() { plans[i] } else { Seq::empty() },
                slice_of(plis, i),
            ) {
                Err(e) => Err(e),
                Ok(y) => straight(
                    m,
                    device,
                    mode,
                    plis,
                    plans,
                    i + 1,
                    Flow {
                        x: y,
                        bufs: h.bufs,
                        buffers: h.buffers,
                        kv: f.kv.update(i, h.kv),
                        shared: h.shared,
                    },
                ),
            },
        }
    }
}

/// Stopping for the host changes nothing: going on from where a run paused
/// gives what the run would have given with the plans known beforehand.
pub proof fn law_pausing_is_transparent(
    m: TextModel,
    device: Device,
    mode: ModeVal,
    plis: Option<Val>,
    plans: Seq<Seq<Seq<usize>>>,
    i: int,
    f: Flow,
)
    requires
        0 <= i <= m.layers.len(),
    ensures
        match m.run(device, mode, plis, i, f) {
            Ran::Failed(x) => straight(m, device, mode, plis, plans, i, f) == Err::<Flow, Error>(
                x.error,
            ),
            Ran::Through(g) => straight(m, device, mode, plis, plans, i, f) == Ok::<Flow, Error>(g),
            Ran::Paused(j, h, kv) => {
                &&& i <= j < m.layers.len()
                &&& straight(m, device, mode, plis, plans, i, f) == (match m.layers[j].finished(
                    device,
                    h.residual,
                    h.mlp_out,
                    h.probs,
                    plans[j],
                    slice_of(plis, j),
                ) {
                    Err(e) => Err(e),
                    Ok(y) => straight(
                        m,
                        device,
                        mode,
                        plis,
                        plans,
                        j + 1,
                        Flow { x: y, bufs: h.bufs, buffers: h.buffers, kv, shared: h.shared },
                    ),
                })
            },
        },
    decreases m.layers.len() - i,
{
    if i < m.layers.len() {
        let layer = m.layers[i];
        if let Ok(h) = layer.halfway(device, mode, f.x, f.kv[i], f.buffers, f.bufs, f.shared) {
            if !layer.host_routed() {
                if let Ok(y) = layer.finished(
                    device,
                    h.residual,
                    h.mlp_out,
                    h.probs,
                    Seq::empty(),
                    slice_of(plis, i),
                ) {
                    law_pausing_is_transparent(
                        m,
                        device,
                        mode,
                        plis,
                        plans,
                        i + 1,
                        Flow {
                            x: y,
                            bufs: h.bufs,
                            buffers: h.buffers,
                            kv: f.kv.update(i, h.kv),
                            shared: h.shared,
                        },
                    );
                }
            }
        }
    }
}

/// On a CUDA device, with an element type that the kernels come in, the static
/// attention of a layer refuses nothing: it has its keys and values, made or
/// still to be made, or reads those that an earlier layer stored.
pub proof fn law_step_attention_goes_through(
    a: Attention,
    x: Val,
    ctx: StaticCtx,
    kv: LayerKv,
    buffers: Seq<Buf>,
    bufs: Bufs,
    shared: Shared,
)
    requires
        a.wf(),
        x.shape.rank == 3,
        kernel_dtype(x.dtype),
        ctx.pos.dtype == DType::U32,
        a.is_kv_shared ==> shared.slot(a.is_sliding) is Some,
        kv.statics matches Some(p) ==> p.k.shape.rank == 3 && p.k.dtype == x.dtype && p.v.dtype
            == x.dtype,
    ensures
        a.step_pass(Device::Cuda, x, ctx, kv, buffers, bufs, shared) is Ok,
{
    if !a.is_kv_shared {
        let at = held(bufs, ctx.pos);
        assert(a.rotary().at_rows(a.key(x, 1, 1), at).dtype == x.dtype) by {
            lemma_proj_dtype(a.k_proj->0, x);
            reveal(un);
            reveal(bin);
            reveal(tri);
        }
        assert(a.value(x, 1, 1).dtype == x.dtype) by {
            lemma_proj_dtype(a.k_proj->0, x);
            if let Some(p) = a.v_proj {
                lemma_proj_dtype(p, x);
            }
            reveal(un);
            reveal(bin);
        }
        reveal(un);
    }
}

/// A rotation looked up at the counted position is the rotation there.
proof fn lemma_same_rotation(r: RotaryEmbedding, x: Val, at: Val, n: usize)
    requires
        counted(at.term) == Some(n as int),
    ensures
        resolved(r.at_rows(x, at).term) == resolved(r.at_offset(x, n, 1).term),
{
    reveal(un);
    reveal(bin);
    reveal(tri);
    reveal_with_fuel(resolved, 4);
}

/// A replayed step and an eager pass over one token do the same to what a layer
/// remembers: on the same input, and with the same keys and values remembered
/// so far, the static buffers and the growing cache hold the same keys and
/// values afterwards.
pub proof fn law_step_remembers_the_same(
    a: Attention,
    device: Device,
    x: Val,
    ctx: StaticCtx,
    fixed: KvBufs,
    cache: KvCache,
    bases: (Term, Term),
    stepped: (Seq<Buf>, Bufs),
    eager: (Seq<Buf>, Bufs),
    shared: (Shared, Shared),
)
    requires
        a.wf(),
        !a.is_kv_shared,
        x.shape.rank == 3,
        x.shape.d0 == 1,
        x.shape.d1 == 1,
        fixed.k.id != fixed.v.id,
        cache.bufs is Some,
        cache.bufs->0.k.id != cache.bufs->0.v.id,
        cache.len < a.rotary().rows(),
        counted(stepped.1[ctx.pos.id as int]) == Some(cache.len as int),
        rows_agree(
            stepped.1[fixed.k.id as int],
            bases.0,
            eager.1[cache.bufs->0.k.id as int],
            cache.len as int,
        ),
        rows_agree(
            stepped.1[fixed.v.id as int],
            bases.1,
            eager.1[cache.bufs->0.v.id as int],
            cache.len as int,
        ),
    ensures
        ({
            let kv = LayerKv { cache, statics: Some(fixed) };
            let pass = a.pass(x, None, None, cache.len, kv, eager.0, eager.1, shared.1);
            let n = cache.len + 1;
            a.step_pass(device, x, ctx, kv, stepped.0, stepped.1, shared.0) matches Ok(s) ==> {
                &&& pass matches Ok(e)
                &&& rows_agree(
                    s.bufs[fixed.k.id as int],
                    bases.0,
                    e.bufs[cache.bufs->0.k.id as int],
                    n,
                )
                &&& rows_agree(
                    s.bufs[fixed.v.id as int],
                    bases.1,
                    e.bufs[cache.bufs->0.v.id as int],
                    n,
                )
            }
        }),
{
    let n = cache.len;
    let at = held(stepped.1, ctx.pos);
    let c = cache.bufs->0;
    let op = Op::CacheAppend { max_seq: cache.max_seq, rotating: cache.rotating };
    let row = Op::Reshape(d2(a.num_kv_heads, a.head_dim));
    let (ks, ke) = (
        a.rotary().at_rows(a.key(x, 1, 1), at),
        a.rotary().at_offset(a.key(x, 1, 1), n, 1),
    );
    let v = a.value(x, 1, 1);
    lemma_same_rotation(a.rotary(), a.key(x, 1, 1), at, n);
    assert(bare(un(row, ks).term) == ks.term && bare(un(row, v).term) == v.term) by {
        reveal(un);
    }
    law_row_joins(
        stepped.1[fixed.k.id as int],
        bases.0,
        eager.1[c.k.id as int],
        n as int,
        un(row, ks).term,
        ke.term,
        at.term,
        op,
    );
    law_row_joins(
        stepped.1[fixed.v.id as int],
        bases.1,
        eager.1[c.v.id as int],
        n as int,
        un(row, v).term,
        v.term,
        at.term,
        op,
    );
}

/// What a layer writes into the static buffers for a chunk at `pos`.
pub open spec fn chunk_rows(a: Attention, x: Val, pos: usize) -> (Term, Term) {
    let len = x.shape.d1;
    let rows = Op::Reshape(d3(a.num_kv_heads, len, a.head_dim));
    let k = un(rows, a.rotary().at_offset(a.key(x, 1, len), pos, len));
    (k.term, un(rows, a.value(x, 1, len)).term)
}

/// What a layer writes into the static buffers for one token at the position
/// `at`.
pub open spec fn step_rows(a: Attention, x: Val, at: Val) -> (Term, Term) {
    let row = Op::Reshape(d2(a.num_kv_heads, a.head_dim));
    let k = un(row, a.rotary().at_rows(a.key(x, 1, 1), at));
    (k.term, un(row, a.value(x, 1, 1)).term)
}

/// One-token steps on `xs`, the `k`-th from the buffers `before[k]`, follow each
/// other from position `pos` on in what concerns the buffers `fixed`.
pub open spec fn steps_follow(
    a: Attention,
    device: Device,
    xs: Seq<Val>,
    ctx: StaticCtx,
    pos: usize,
    kv: LayerKv,
    buffers: Seq<Buf>,
    before: Seq<Bufs>,
    shared: Shared,
) -> bool {
    let p = kv.statics->0;
    &&& before.len() == xs.len() + 1
    &&& forall|k: int|
        0 <= k < xs.len() ==> {
            &&& counted((#[trigger] before[k])[ctx.pos.id as int]) == Some(pos + k)
            &&& a.step_pass(device, xs[k], ctx, kv, buffers, before[k], shared) matches Ok(s)
            &&& before[k + 1][p.k.id as int] == s.bufs[p.k.id as int]
            &&& before[k + 1][p.v.id as int] == s.bufs[p.v.id as int]
        }
}

/// A chunk and one-token steps leave the same rows of keys and values. On the
/// same tokens at the same positions, and in every reading of rows in which
/// what is written for row `k` of the chunk is what is written for the `k`-th
/// token alone, the static buffers read the same afterwards.
pub proof fn law_chunk_leaves_the_rows_of_steps<V>(
    a: Attention,
    device: Device,
    x: Val,
    xs: Seq<Val>,
    ctx: StaticCtx,
    pos: usize,
    kv: LayerKv,
    buffers: Seq<Buf>,
    before: Seq<Bufs>,
    shared: Shared,
    f: spec_fn(Term, int) -> V,
    i: int,
)
    requires
        a.wf(),
        !a.is_kv_shared,
        kv.statics is Some,
        kv.statics->0.k.id != kv.statics->0.v.id,
        x.shape.d1 == xs.len(),
        steps_follow(a, device, xs, ctx, pos, kv, buffers, before, shared),
        forall|k: int|
            0 <= k < xs.len() ==> {
                let one = step_rows(a, #[trigger] xs[k], held(before[k], ctx.pos));
                f(chunk_rows(a, x, pos).0, k) == f(one.0, 0) && f(chunk_rows(a, x, pos).1, k) == f(
                    one.1,
                    0,
                )
            },
    ensures
        a.chunk_pass(device, x, ctx, pos, kv, buffers, before[0], shared) matches Ok(c) ==> ({
            let p = kv.statics->0;
            let last = before[xs.len() as int];
            &&& reading(c.bufs[p.k.id as int], i, f) == reading(last[p.k.id as int], i, f)
            &&& reading(c.bufs[p.v.id as int], i, f) == reading(last[p.v.id as int], i, f)
        }),
{
    let p = kv.statics->0;
    let n = xs.len() as int;
    let at = Seq::new(n as nat, |k: int| before[k][ctx.pos.id as int]);
    let ks = Seq::new(n as nat, |k: int| step_rows(a, xs[k], held(before[k], ctx.pos)).0);
    let vs = Seq::new(n as nat, |k: int| step_rows(a, xs[k], held(before[k], ctx.pos)).1);
    if let Ok(c) = a.chunk_pass(device, x, ctx, pos, kv, buffers, before[0], shared) {
        lemma_steps_write(a, device, xs, ctx, pos, kv, buffers, before, shared, n);
        let rows = chunk_rows(a, x, pos);
        let (k0, v0) = (before[0][p.k.id as int], before[0][p.v.id as int]);
        assert(c.bufs[p.k.id as int] == chunk_written(k0, pos, x.shape.d1, rows.0)) by {
            reveal(un);
        }
        assert(c.bufs[p.v.id as int] == chunk_written(v0, pos, x.shape.d1, rows.1)) by {
            reveal(un);
        }
        assert forall|k: int| 0 <= k < n implies counted(#[trigger] at[k]) == Some(pos + k) by {
            assert(counted(before[k][ctx.pos.id as int]) == Some(pos + k));
        }
        assert forall|k: int| 0 <= k < n implies f(rows.0, k) == f(#[trigger] ks[k], 0) by {
            let one = step_rows(a, xs[k], held(before[k], ctx.pos));
        }
        assert forall|k: int| 0 <= k < n implies f(rows.1, k) == f(#[trigger] vs[k], 0) by {
            let one = step_rows(a, xs[k], held(before[k], ctx.pos));
        }
        law_chunk_is_its_rows(k0, pos, x.shape.d1, rows.0, ks, at, f, i);
        law_chunk_is_its_rows(v0, pos, x.shape.d1, rows.1, vs, at, f, i);
    }
}

/// Steps that follow each other write one row each.
proof fn lemma_steps_write(
    a: Attention,
    device: Device,
    xs: Seq<Val>,
    ctx: StaticCtx,
    pos: usize,
    kv: LayerKv,
    buffers: Seq<Buf>,
    before: Seq<Bufs>,
    shared: Shared,
    n: int,
)
    requires
        !a.is_kv_shared,
        kv.statics is Some,
        kv.statics->0.k.id != kv.statics->0.v.id,
        steps_follow(a, device, xs, ctx, pos, kv, buffers, before, shared),
        0 <= n <= xs.len(),
    ensures
        ({
            let p = kv.statics->0;
            let len = xs.len();
            let at = Seq::new(len, |k: int| before[k][ctx.pos.id as int]);
            let ks = Seq::new(len, |k: int| step_rows(a, xs[k], held(before[k], ctx.pos)).0);
            let vs = Seq::new(len, |k: int| step_rows(a, xs[k], held(before[k], ctx.pos)).1);
            &&& before[n][p.k.id as int] == rows_written(before[0][p.k.id as int], ks, at, n)
            &&& before[n][p.v.id as int] == rows_written(before[0][p.v.id as int], vs, at, n)
        }),
    decreases n,
{
    if n > 0 {
        lemma_steps_write(a, device, xs, ctx, pos, kv, buffers, before, shared, n - 1);
        assert(counted(before[n - 1][ctx.pos.id as int]) == Some(pos + (n - 1)));
        assert(before[n - 1 + 1] == before[n]);
        assert(held(before[n - 1], ctx.pos).term == before[n - 1][ctx.pos.id as int]);
    }
}

/// The masks of a step at position `n` let through what the cache of a layer
/// hands out with one more position: everything under the global one; under the
/// sliding one the window and the token itself, where the cache keeps as much,
/// or as long as nothing has left it.
pub proof fn law_step_mask_is_the_view(
    ctx: StaticCtx,
    device: Device,
    bufs: Bufs,
    cache: KvCache,
    j: int,
)
    requires
        counted(bufs[ctx.pos.id as int]) == Some(cache.len as int),
        cache.len < usize::MAX,
        0 <= j,
        ctx.mask_global.id != ctx.mask_sliding.id,
        ctx.mask_global.id != ctx.pos.id,
        cache.rotating ==> ctx.sliding_window > 0 && (cache.max_seq == ctx.sliding_window + 1
            || cache.len < cache.max_seq && cache.len <= ctx.sliding_window),
    ensures
        ctx.refreshed(device, bufs) matches Ok(b) ==> ({
            let mask = if cache.rotating { ctx.mask_sliding } else { ctx.mask_global };
            cell_blocked(b[mask.id as int], j) == Some(
                !(cache.len + 1 - cache.view_len(1) <= j <= cache.len),
            )
        }),
{
    let window: usize = if cache.rotating { ctx.sliding_window } else { 0 };
    law_mask_lets_through(cache, bufs[ctx.pos.id as int], window, j);
}

/// The four ways through a layer differ in attention only: where it comes out
/// the same, so does everything that follows in the layer.
pub proof fn law_ways_share_the_rest(
    layer: DecoderLayer,
    device: Device,
    x: Val,
    modes: (ModeVal, ModeVal),
    kv: (LayerKv, LayerKv),
    buffers: (Seq<Buf>, Seq<Buf>),
    bufs: (Bufs, Bufs),
    shared: (Shared, Shared),
)
    requires
        ({
            let y = layer.input_layernorm.apply(x);
            let a = layer.attended(device, modes.0, y, kv.0, buffers.0, bufs.0, shared.0);
            let b = layer.attended(device, modes.1, y, kv.1, buffers.1, bufs.1, shared.1);
            a is Ok && b is Ok && a->Ok_0.out == b->Ok_0.out
        }),
    ensures
        ({
            let a = layer.halfway(device, modes.0, x, kv.0, buffers.0, bufs.0, shared.0);
            let b = layer.halfway(device, modes.1, x, kv.1, buffers.1, bufs.1, shared.1);
            match (a, b) {
                (Ok(a), Ok(b)) => {
                    &&& a.residual == b.residual
                    &&& a.mlp_out == b.mlp_out
                    &&& a.probs == b.probs
                    &&& forall|plan: Seq<Seq<usize>>, pli: Option<Val>| #[trigger]
                        layer.finished(device, a.residual, a.mlp_out, a.probs, plan, pli)
                            == layer.finished(device, b.residual, b.mlp_out, b.probs, plan, pli)
                },
                (Err(d), Err(e)) => d.error == e.error,
                _ => false,
            }
        }),
{
    reveal(DecoderLayer::halfway);
}

proof fn lemma_proj_dtype(p: Proj, x: Val)
    ensures
        p.apply(x).dtype == x.dtype,
{
    reveal(un);
    reveal(bin);
}

} // verus!
