//! What holds of whole passes.
use vstd::prelude::*;

use crate::dtype::{DType, Device};
use crate::error::Error;
use crate::kv_cache::{CatCache, KvBufs};
use crate::loader::{decimal, pp, Loader};
use crate::qcache::QCache;
use crate::quant::GgmlDType;
use crate::qwen3_5::attention::{FullAttention, FullKv};
use crate::qwen3_5::config::Qwen35TextConfig;
use crate::qwen3_5::delta::{GatedDeltaNet, GdnState, Live, Slot};
use crate::qwen3_5::ffn::{expert_keys, law_warm_expert, request_of, ExpertSource};
use crate::qwen3_5::layer::{DecoderLayer, MixState, Mixer, Mode, QwenStaticCtx};
use crate::qwen3_5::model::{cleared, Flow, Model, Outcome, Pass, Ran, Task};
use crate::qwen3_5::norm::Rotary;
use crate::rows::{bare, cell_blocked, law_row_joins, resolved, rows_agree};
use crate::serving::warm;
use crate::shape::{d3, sat_sum};
use crate::static_decode::{counted, law_counting_adds, linked, mask_row_effect, u32_effect};
use crate::tape::{bin, held, opt_val, tri, un, un_term, Buf, Bufs, Op, Term, Val};

verus! {

/// No layer keeps anything in buffer `id`.
pub open spec fn apart(states: Seq<MixState>, id: int) -> bool {
    forall|i: int| 0 <= i < states.len() ==> kept_apart(#[trigger] states[i], id)
}

pub open spec fn kept_apart(s: MixState, id: int) -> bool {
    match s {
        MixState::Full(kv) => {
            &&& kv.cache.bufs matches Some(p) ==> p.k.id != id && p.v.id != id
            &&& kv.statics matches Some(p) ==> p.k.id != id && p.v.id != id
        },
        MixState::Linear(g) => slot_apart(g.conv, id) && slot_apart(g.s, id),
    }
}

pub open spec fn slot_apart(s: Slot, id: int) -> bool {
    &&& s.own matches Some(b) ==> b.id != id
    &&& s.fixed matches Some(b) ==> b.id != id
}

/// The first half of a layer changes no buffer but those of the layer.
proof fn lemma_halfway_frame(
    layer: DecoderLayer,
    device: Device,
    mode: Mode,
    rotary: Rotary,
    x: Val,
    state: MixState,
    buffers: Seq<Buf>,
    bufs: Bufs,
    id: int,
)
    requires
        kept_apart(state, id),
        0 <= id < buffers.len(),
        buffers.len() + 2 <= usize::MAX,
    ensures
        match layer.halfway(device, mode, rotary, x, state, buffers, bufs) {
            Ok(h) => {
                &&& h.bufs[id] == bufs[id]
                &&& kept_apart(h.state, id)
                &&& buffers.len() <= h.buffers.len() <= buffers.len() + 2
            },
            Err(x) => x.bufs[id] == bufs[id] && kept_apart(x.state, id),
        },
{
    reveal(DecoderLayer::halfway);
}

/// A run through the layers changes no buffer but those of the layers, whether
/// it goes through, waits or is refused.
pub proof fn law_run_frame(m: Model, device: Device, mode: Mode, i: int, f: Flow, id: int)
    requires
        0 <= i <= m.layers.len(),
        f.states.len() == m.layers.len(),
        apart(f.states, id),
        0 <= id < f.buffers.len(),
        f.buffers.len() + 2 * (m.layers.len() - i) <= usize::MAX,
    ensures
        match m.run(device, mode, i, f) {
            Ran::Failed(x) => x.bufs[id] == f.bufs[id] && apart(x.states, id),
            Ran::Paused(j, h, states) => h.bufs[id] == f.bufs[id] && apart(states, id),
            Ran::Through(g) => g.bufs[id] == f.bufs[id] && apart(g.states, id),
        },
    decreases m.layers.len() - i,
{
    if i < m.layers.len() {
        let layer = m.layers[i];
        lemma_halfway_frame(
            layer,
            device,
            mode,
            m.rotary,
            f.x,
            f.states[i],
            f.buffers,
            f.bufs,
            id,
        );
        if let Ok(h) = layer.halfway(
            device,
            mode,
            m.rotary,
            f.x,
            f.states[i],
            f.buffers,
            f.bufs,
        ) {
            let states = f.states.update(i, h.state);
            assert(apart(states, id));
            if !layer.host_routed() {
                law_run_frame(
                    m,
                    device,
                    mode,
                    i + 1,
                    Flow {
                        x: layer.finished(h.x, h.normed, h.probs, Seq::empty()),
                        bufs: h.bufs,
                        buffers: h.buffers,
                        states,
                    },
                    id,
                );
            }
        }
    }
}

/// A decode step that goes through advances the position by exactly one, on the
/// device and on the host.
pub proof fn law_step_advances(m: Model, device: Device, ids: Val, bufs: Bufs, buffers: Seq<Buf>)
    requires
        m.wf(),
        m.static_ctx is Some,
        apart(m.states@, m.static_ctx->0.pos.id as int),
        m.static_ctx->0.pos.id < buffers.len(),
        m.static_ctx->0.mask.id != m.static_ctx->0.pos.id,
        buffers.len() + 2 * m.layers.len() <= usize::MAX,
    ensures
        ({
            let pos = m.static_ctx->0.pos.id as int;
            m.step_job(device, ids, bufs, buffers) matches Outcome::Done {
                logits,
                bufs: after,
                buffers: _,
                states: _,
                steps,
            } ==> after[pos] == un_term(Op::AddU32(1), bufs[pos]) && steps == 1
        }),
{
    let ctx = m.static_ctx->0;
    if let Ok(b) = mask_row_effect(device, bufs, ctx.mask, ctx.pos, 0) {
        law_run_frame(
            m,
            device,
            Mode::Step { ctx },
            0,
            Flow {
                x: un(Op::Embedding(m.embed_tokens), ids),
                bufs: b,
                buffers,
                states: m.states@,
            },
            ctx.pos.id as int,
        );
    }
}

/// Positions add up: a step that is read at position `p` leaves `p + 1` for the
/// next.
pub proof fn law_positions_add_up(
    m: Model,
    device: Device,
    ids: Val,
    bufs: Bufs,
    buffers: Seq<Buf>,
    p: int,
)
    requires
        m.wf(),
        m.static_ctx is Some,
        apart(m.states@, m.static_ctx->0.pos.id as int),
        m.static_ctx->0.pos.id < buffers.len(),
        m.static_ctx->0.mask.id != m.static_ctx->0.pos.id,
        buffers.len() + 2 * m.layers.len() <= usize::MAX,
        0 <= p < u32::MAX,
        counted(bufs[m.static_ctx->0.pos.id as int]) == Some(p),
    ensures
        m.step_job(device, ids, bufs, buffers) matches Outcome::Done {
            logits,
            bufs: after,
            buffers: _,
            states: _,
            steps,
        } ==> counted(after[m.static_ctx->0.pos.id as int]) == Some(p + 1),
{
    law_step_advances(m, device, ids, bufs, buffers);
    law_counting_adds(bufs[m.static_ctx->0.pos.id as int], 1);
}

/// A decode step makes no buffers and changes nothing that the host keeps for a
/// layer: what is recorded for one step is what is recorded for every later one.
pub proof fn law_step_is_static(m: Model, device: Device, ctx: QwenStaticCtx, i: int, f: Flow)
    requires
        0 <= i <= m.layers.len(),
        f.states.len() == m.layers.len(),
    ensures
        match m.run(device, Mode::Step { ctx }, i, f) {
            Ran::Failed(e) => true,
            Ran::Paused(j, h, states) => states == f.states && h.buffers == f.buffers,
            Ran::Through(g) => g.states == f.states && g.buffers == f.buffers,
        },
    decreases m.layers.len() - i,
{
    if i < m.layers.len() {
        let layer = m.layers[i];
        let mode = Mode::Step { ctx };
        if let Ok(h) = layer.halfway(
            device,
            mode,
            m.rotary,
            f.x,
            f.states[i],
            f.buffers,
            f.bufs,
        ) {
            assert(h.state == f.states[i] && h.buffers == f.buffers) by {
                reveal(DecoderLayer::halfway);
            }
            assert(f.states.update(i, h.state) =~= f.states);
            if !layer.host_routed() {
                law_step_is_static(
                    m,
                    device,
                    ctx,
                    i + 1,
                    Flow {
                        x: layer.finished(h.x, h.normed, h.probs, Seq::empty()),
                        bufs: h.bufs,
                        buffers: h.buffers,
                        states: f.states,
                    },
                );
            }
        }
    }
}

/// The attention caches hold `n` positions.
pub open spec fn hold(states: Seq<MixState>, n: int, from: int, to: int) -> bool {
    forall|i: int|
        from <= i < to ==> (#[trigger] states[i] matches MixState::Full(kv) ==> kv.cache.len() == n)
}

proof fn lemma_pass_appends(
    layer: DecoderLayer,
    device: Device,
    pos: usize,
    rotary: Rotary,
    x: Val,
    kv: FullKv,
    buffers: Seq<Buf>,
    bufs: Bufs,
)
    requires
        layer.mixer is Full,
        layer.wf(rotary),
    ensures
        layer.halfway(
            device,
            Mode::Pass { pos },
            rotary,
            x,
            MixState::Full(kv),
            buffers,
            bufs,
        ) matches Ok(h) ==> {
            &&& h.state matches MixState::Full(after)
            &&& after.cache.len() == sat_sum(kv.cache.len(), x.shape.d1)
        },
{
    reveal(DecoderLayer::halfway);
    crate::qwen3_5::layer::lemma_norm_shape(layer.input_layernorm, x);
    let a = layer.mixer->Full_0;
    let y = layer.input_layernorm.apply(x);
    let (b, seq) = (y.shape.d0, y.shape.d1);
    let k = rotary.at(a.key(y, b, seq), pos, seq, a.head_dim);
    let v = a.value(y, b, seq);
    assert(k.shape.d2 == seq) by {
        reveal(un);
        reveal(bin);
        reveal(tri);
    }
    assert(kv.cache.joined(bufs, kv.cache.bufs->0.k, k).shape.d2 == sat_sum(
        kv.cache.len(),
        seq,
    )) by {
        reveal(bin);
    }
}

/// The caches follow the cursor: where every attention cache holds as many
/// positions as the model has read, it does so again after a pass.
pub proof fn law_caches_follow_cursor(m: Model, device: Device, pos: usize, i: int, f: Flow, n: int)
    requires
        m.wf(),
        0 <= i <= m.layers.len(),
        f.states.len() == m.layers.len(),
        forall|j: int|
            i <= j < m.layers.len() ==> m.layers[j].mixer.suits(#[trigger] f.states[j]),
        0 <= n,
        n + f.x.shape.d1 <= usize::MAX,
        hold(f.states, n + f.x.shape.d1, 0, i),
        hold(f.states, n, i, m.layers.len() as int),
    ensures
        match m.run(device, Mode::Pass { pos }, i, f) {
            Ran::Failed(e) => true,
            Ran::Paused(j, h, states) => {
                &&& states.len() == m.layers.len()
                &&& h.x.shape == f.x.shape
                &&& hold(states, n + f.x.shape.d1, 0, j + 1)
                &&& hold(states, n, j + 1, m.layers.len() as int)
            },
            Ran::Through(g) => hold(g.states, n + f.x.shape.d1, 0, m.layers.len() as int),
        },
    decreases m.layers.len() - i,
{
    if i < m.layers.len() {
        let layer = m.layers[i];
        let mode = Mode::Pass { pos };
        assert(layer.wf(m.rotary));
        assert(layer.mixer.suits(f.states[i]));
        if let MixState::Full(kv) = f.states[i] {
            lemma_pass_appends(layer, device, pos, m.rotary, f.x, kv, f.buffers, f.bufs);
        }
        if let Ok(h) = layer.halfway(
            device,
            mode,
            m.rotary,
            f.x,
            f.states[i],
            f.buffers,
            f.bufs,
        ) {
            assert(h.state is Full <==> f.states[i] is Full) by {
                reveal(DecoderLayer::halfway);
            }
            assert(h.x.shape == f.x.shape) by {
                reveal(DecoderLayer::halfway);
                reveal(bin);
            }
            let states = f.states.update(i, h.state);
            assert(hold(states, n + f.x.shape.d1, 0, i + 1)) by {
                assert forall|j: int| 0 <= j < i + 1 implies (#[trigger] states[j] matches MixState::Full(
                    kv,
                ) ==> kv.cache.len() == n + f.x.shape.d1) by {
                    if j < i {
                        assert(states[j] == f.states[j]);
                    }
                }
            }
            assert(hold(states, n, i + 1, m.layers.len() as int)) by {
                assert forall|j: int| i + 1 <= j < m.layers.len() implies (#[trigger] states[j] matches MixState::Full(
                    kv,
                ) ==> kv.cache.len() == n) by {
                    assert(states[j] == f.states[j]);
                }
            }
            if !layer.host_routed() {
                let y = layer.finished(h.x, h.normed, h.probs, Seq::empty());
                assert(y.shape == f.x.shape) by {
                    reveal(bin);
                }
                law_caches_follow_cursor(
                    m,
                    device,
                    pos,
                    i + 1,
                    Flow { x: y, bufs: h.bufs, buffers: h.buffers, states },
                    n,
                );
            }
        }
    }
}

/// Moving to the static path reports the number of positions read, and leaves
/// that number on the device, where the caches have followed the cursor.
pub proof fn law_migration_reports_cursor(m: Model, device: Device, bufs: Bufs)
    requires
        m.wf(),
        hold(m.states@, m.pos as int, 0, m.states.len() as int),
    ensures
        match m.moved(device, bufs) {
            Ok((states, b, n)) => {
                &&& n == m.pos
                &&& m.static_ctx is Some
                &&& b[m.static_ctx->0.pos.id as int] == Term::Leaf(Op::U32(n as u32))
            },
            Err((e, s, b)) => e matches Error::PrefillTooLong { len, max_seq } ==> max_seq <= len
                <= m.pos,
        },
{
    lemma_migrated_length(m, device, bufs, m.states.len() as int);
}

proof fn lemma_migrated_length(m: Model, device: Device, bufs: Bufs, n: int)
    requires
        0 <= n <= m.states.len(),
        hold(m.states@, m.pos as int, 0, m.states.len() as int),
    ensures
        match m.migrated(device, m.states@, bufs, n) {
            Ok((states, b, len)) => len == 0 || len == m.pos,
            Err((e, s, b)) => !(e is PrefillTooLong),
        },
    decreases n,
{
    if n > 0 {
        lemma_migrated_length(m, device, bufs, n - 1);
        assert(m.states@[n - 1] matches MixState::Full(kv) ==> kv.cache.len() == m.pos);
    }
}

/// After the move, eager steps and replayed ones share storage: a layer's eager
/// pass works on the fixed buffers, makes no others, and leaves the last inputs
/// of the convolution in the fixed window.
pub proof fn law_moved_state_is_shared(
    g: GatedDeltaNet,
    device: Device,
    x: Val,
    state: GdnState,
    buffers: Seq<Buf>,
    bufs: Bufs,
)
    requires
        g.wf(),
        g.state_ok(state),
        state.conv.live == Live::Fixed,
        state.s.live == Live::Fixed,
    ensures
        g.pass(device, x, state, buffers, bufs) matches Ok(o) ==> o.state == state && o.buffers
            == buffers,
        g.pass(device, x, state, buffers, bufs) matches Ok(o) ==> (state.conv.fixed->0.id
            != state.s.fixed->0.id ==> o.bufs[state.conv.fixed->0.id as int] == un(
            Op::Narrow {
                dim: 1,
                start: if x.shape.d1 == 0 { 0 } else { (x.shape.d1 - 1) as usize },
                len: g.conv_kernel,
            },
            g.padded(GatedDeltaNet::rows(x), state, bufs),
        ).term),
{
}

/// A replayed step and an eager pass over one token, on the same fixed buffers,
/// convolve the same inputs: the window rolled by one.
pub proof fn law_step_sees_same_window(
    g: GatedDeltaNet,
    x: Val,
    state: GdnState,
    bufs: Bufs,
    h: usize,
)
    requires
        x.shape == d3(1, 1, h),
        state.conv.live == Live::Fixed,
        state.conv.fixed is Some,
    ensures
        g.rolled(GatedDeltaNet::row(x), state.conv.fixed->0, bufs) == g.padded(
            GatedDeltaNet::rows(x),
            state,
            bufs,
        ),
{
}

/// A layer that has forgotten everything computes what a new layer computes.
proof fn lemma_cleared_is_blank(
    layer: DecoderLayer,
    device: Device,
    pos: usize,
    rotary: Rotary,
    x: Val,
    state: MixState,
    a: (Seq<Buf>, Bufs),
    b: (Seq<Buf>, Bufs),
)
    requires
        layer.mixer.suits(state),
    ensures
        match (
            layer.halfway(device, Mode::Pass { pos }, rotary, x, cleared(state), a.0, a.1),
            layer.halfway(device, Mode::Pass { pos }, rotary, x, layer.mixer.blank(), b.0, b.1),
        ) {
            (Ok(p), Ok(q)) => p.x == q.x && p.normed == q.normed && p.probs == q.probs,
            (Err(d), Err(e)) => d.error == e.error,
            _ => false,
        },
{
    reveal(DecoderLayer::halfway);
}

/// A model that was cleared reads a new sequence as a new model does: no trace
/// of the old one is left in what it computes.
pub proof fn law_clearing_forgets(
    m: Model,
    device: Device,
    pos: usize,
    i: int,
    x: Val,
    a: (Seq<Buf>, Bufs, Seq<MixState>),
    b: (Seq<Buf>, Bufs, Seq<MixState>),
)
    requires
        m.wf(),
        0 <= i <= m.layers.len(),
        a.2.len() == m.layers.len(),
        b.2.len() == m.layers.len(),
        forall|j: int| i <= j < m.layers.len() ==> #[trigger] a.2[j] == cleared(m.states[j]),
        forall|j: int| i <= j < m.layers.len() ==> #[trigger] b.2[j] == m.layers[j].mixer.blank(),
    ensures
        match (
            m.run(
                device,
                Mode::Pass { pos },
                i,
                Flow { x, bufs: a.1, buffers: a.0, states: a.2 },
            ),
            m.run(
                device,
                Mode::Pass { pos },
                i,
                Flow { x, bufs: b.1, buffers: b.0, states: b.2 },
            ),
        ) {
            (Ran::Failed(d), Ran::Failed(e)) => d.error == e.error,
            (Ran::Paused(j, p, s), Ran::Paused(k, q, t)) => {
                &&& j == k
                &&& i <= j < m.layers.len()
                &&& s.len() == m.layers.len() && t.len() == m.layers.len()
                &&& forall|n: int| j < n < s.len() ==> #[trigger] s[n] == a.2[n]
                &&& forall|n: int| j < n < t.len() ==> #[trigger] t[n] == b.2[n]
                &&& p.x == q.x
                &&& p.normed == q.normed
                &&& p.probs == q.probs
            },
            (Ran::Through(f), Ran::Through(g)) => f.x == g.x,
            _ => false,
        },
    decreases m.layers.len() - i,
{
    if i < m.layers.len() {
        let layer = m.layers[i];
        let mode = Mode::Pass { pos };
        assert(layer.mixer.suits(m.states[i]));
        assert(a.2[i] == cleared(m.states[i]));
        assert(b.2[i] == layer.mixer.blank());
        lemma_cleared_is_blank(
            layer,
            device,
            pos,
            m.rotary,
            x,
            m.states[i],
            (a.0, a.1),
            (b.0, b.1),
        );
        if !layer.host_routed() {
            if let Ok(p) = layer.halfway(device, mode, m.rotary, x, a.2[i], a.0, a.1) {
                if let Ok(q) = layer.halfway(device, mode, m.rotary, x, b.2[i], b.0, b.1) {
                    law_clearing_forgets(
                        m,
                        device,
                        pos,
                        i + 1,
                        layer.finished(p.x, p.normed, p.probs, Seq::empty()),
                        (p.buffers, p.bufs, a.2.update(i, p.state)),
                        (q.buffers, q.bufs, b.2.update(i, q.state)),
                    );
                }
            }
        }
    }
}

/// Two jobs that end, wait or fail alike: they give the same logits after the
/// same number of positions, wait at the same layer on the same values, or fail
/// for the same reason.
pub open spec fn same_outcome(a: Outcome, b: Outcome) -> bool {
    match (a, b) {
        (Outcome::Failed(x), Outcome::Failed(y)) => x.error == y.error,
        (
            Outcome::Paused(task, mode, layer, h, _),
            Outcome::Paused(task2, mode2, layer2, h2, _),
        ) => {
            &&& task == task2
            &&& mode == mode2
            &&& layer == layer2
            &&& h.x == h2.x
            &&& h.normed == h2.normed
            &&& h.probs == h2.probs
        },
        (
            Outcome::Done { logits, bufs: _, buffers: _, states: _, steps },
            Outcome::Done { logits: logits2, bufs: _, buffers: _, states: _, steps: steps2 },
        ) => logits == logits2 && steps == steps2,
        _ => false,
    }
}

/// The layers from `i` on have forgotten everything in `a`, and have never seen
/// anything in `b`.
pub open spec fn forgotten_and_new(
    m: Model,
    a: Seq<MixState>,
    b: Seq<MixState>,
    i: int,
) -> bool {
    &&& a.len() == m.layers.len()
    &&& b.len() == m.layers.len()
    &&& forall|j: int| i <= j < m.layers.len() ==> #[trigger] a[j] == cleared(m.states[j])
    &&& forall|j: int| i <= j < m.layers.len() ==> #[trigger] b[j] == m.layers[j].mixer.blank()
}

/// A whole pass from layer `i` on, over layers that have forgotten everything
/// and over new ones, ends alike; where it waits, what follows has still
/// forgotten everything, or is still new.
proof fn lemma_same_drive(
    m: Model,
    device: Device,
    seq: usize,
    i: int,
    x: Val,
    a: (Seq<Buf>, Bufs, Seq<MixState>),
    b: (Seq<Buf>, Bufs, Seq<MixState>),
)
    requires
        m.wf(),
        0 <= i <= m.layers.len(),
        forgotten_and_new(m, a.2, b.2, i),
    ensures
        ({
            let (task, mode) = (Task::Forward { seq }, Mode::Pass { pos: 0 });
            let p = m.drive(
                device,
                task,
                mode,
                i,
                Flow { x, bufs: a.1, buffers: a.0, states: a.2 },
            );
            let q = m.drive(
                device,
                task,
                mode,
                i,
                Flow { x, bufs: b.1, buffers: b.0, states: b.2 },
            );
            &&& same_outcome(p, q)
            &&& p matches Outcome::Paused(_, _, j, _, s) ==> (q matches Outcome::Paused(
                _,
                _,
                _,
                _,
                t,
            ) ==> forgotten_and_new(m, s, t, j + 1))
        }),
{
    law_clearing_forgets(m, device, 0, i, x, a, b);
}

/// A pass from position zero begins anew as a whole: where the model has read
/// anything, or has been cleared, it ends, waits or fails as on a new model of
/// the same weights, and the cursor starts at zero on both.
pub proof fn law_new_sequence_is_a_new_model(
    m: Model,
    new: Model,
    device: Device,
    ids: Val,
    a: (Bufs, Seq<Buf>),
    b: (Bufs, Seq<Buf>),
)
    requires
        m.wf(),
        m.pos != 0 || forall|j: int|
            0 <= j < m.states.len() ==> #[trigger] m.states[j] == cleared(m.states[j]),
        new.same_but_states(m),
        new.pos == 0,
        forall|j: int|
            0 <= j < new.states.len() ==> #[trigger] new.states[j] == new.layers[j].mixer.blank(),
    ensures
        m.rewound(0).1 == new.rewound(0).1,
        ({
            let p = m.forward_job(device, ids, 0, a.0, a.1);
            let q = new.forward_job(device, ids, 0, b.0, b.1);
            &&& same_outcome(p, q)
            &&& p matches Outcome::Paused(_, _, j, _, s) ==> (q matches Outcome::Paused(
                _,
                _,
                _,
                _,
                t,
            ) ==> forgotten_and_new(m, s, t, j + 1))
        }),
{
    let x = un(Op::Embedding(m.embed_tokens), ids);
    let states = m.rewound(0).0;
    lemma_same_drive(
        m,
        device,
        ids.shape.d1,
        0,
        x,
        (a.1, a.0, states),
        (b.1, b.0, new.states@),
    );
    crate::qwen3_5::model::lemma_same_drive(
        new,
        m,
        device,
        Task::Forward { seq: ids.shape.d1 },
        Mode::Pass { pos: 0 },
        0,
        Flow { x, bufs: b.0, buffers: b.1, states: new.states@ },
    );
}

/// The same goes for every pass that is resumed: with the same experts chosen,
/// it goes on alike on the model that began anew and on the new one.
pub proof fn law_resumed_sequence_is_a_new_model(
    m: Model,
    began: Model,
    new: Model,
    device: Device,
    p: Pass,
    q: Pass,
    plan: Seq<Seq<usize>>,
    a: (Bufs, Seq<Buf>),
    b: (Bufs, Seq<Buf>),
)
    requires
        m.wf(),
        began.same_but_states(m),
        new.same_but_states(m),
        p.layer < m.layers.len(),
        forgotten_and_new(m, began.states@, new.states@, p.layer + 1),
        p.task is Forward,
        p.mode == (Mode::Pass { pos: 0 }),
        q.task == p.task && q.mode == p.mode && q.layer == p.layer,
        q.half.x@ == p.half.x@ && q.half.normed@ == p.half.normed@,
        opt_val(q.half.probs) == opt_val(p.half.probs),
    ensures
        same_outcome(
            began.resumed(device, p, plan, a.0, a.1),
            new.resumed(device, q, plan, b.0, b.1),
        ),
{
    let i = p.layer as int;
    let x = m.layers[i].finished(p.half.x@, p.half.normed@, opt_val(p.half.probs), plan);
    lemma_same_drive(
        m,
        device,
        p.task->seq,
        i + 1,
        x,
        (a.1, a.0, began.states@),
        (b.1, b.0, new.states@),
    );
    crate::qwen3_5::model::lemma_same_drive(
        began,
        m,
        device,
        p.task,
        p.mode,
        i + 1,
        Flow { x, bufs: a.0, buffers: a.1, states: began.states@ },
    );
    crate::qwen3_5::model::lemma_same_drive(
        new,
        m,
        device,
        p.task,
        p.mode,
        i + 1,
        Flow { x, bufs: b.0, buffers: b.1, states: new.states@ },
    );
}

/// A refused move to the static path leaves the position held on the device as
/// it was; that goes for a prefill that leaves no room for a decode step too.
pub proof fn law_refused_migration_keeps_position(m: Model, device: Device, bufs: Bufs)
    requires
        m.static_ctx is Some,
        apart(m.states@, m.static_ctx->0.pos.id as int),
    ensures
        m.moved(device, bufs) matches Err((e, s, b)) ==> b[m.static_ctx->0.pos.id as int]
            == bufs[m.static_ctx->0.pos.id as int],
{
    lemma_migration_frame(m, device, bufs, m.states.len() as int, m.static_ctx->0.pos.id as int);
}

/// Moving layers changes no buffer but theirs.
proof fn lemma_migration_frame(m: Model, device: Device, bufs: Bufs, n: int, id: int)
    requires
        0 <= n <= m.states.len(),
        apart(m.states@, id),
    ensures
        match m.migrated(device, m.states@, bufs, n) {
            Ok((s, b, len)) => b[id] == bufs[id],
            Err((e, s, b)) => b[id] == bufs[id],
        },
    decreases n,
{
    if n > 0 {
        lemma_migration_frame(m, device, bufs, n - 1, id);
        assert(kept_apart(m.states@[n - 1], id));
    }
}

/// Buffer `id` belongs to the fixed state of no layer from `i` on.
pub open spec fn unfixed(states: Seq<MixState>, i: int, id: int) -> bool {
    forall|j: int|
        i <= j < states.len() ==> (#[trigger] states[j] matches MixState::Linear(g) ==> {
            &&& g.conv.fixed matches Some(b) ==> b.id != id
            &&& g.s.fixed matches Some(b) ==> b.id != id
        })
}

/// Wiping the layers from `i` to `n` leaves other buffers alone.
pub(crate) proof fn lemma_wiping_frame(
    device: Device,
    states: Seq<MixState>,
    bufs: Bufs,
    i: int,
    n: int,
    id: int,
)
    requires
        0 <= i <= n <= states.len(),
        unfixed(states, i, id),
    ensures
        Model::wiped(device, states, bufs, n) matches Ok(b) ==> Model::wiped(
            device,
            states,
            bufs,
            i,
        ) is Ok && b[id] == Model::wiped(device, states, bufs, i)->Ok_0[id],
    decreases n - i,
{
    if i < n {
        lemma_wiping_frame(device, states, bufs, i, n - 1, id);
        assert(states[n - 1] matches MixState::Linear(g) ==> {
            &&& g.conv.fixed matches Some(b) ==> b.id != id
            &&& g.s.fixed matches Some(b) ==> b.id != id
        });
    }
}

/// Rewinding the static state makes it what it was when the static path was
/// switched on: the position counts zero, and the fixed buffers of a delta-net
/// layer hold the zeros that they were made with.
pub proof fn law_reset_is_fresh(m: Model, device: Device, bufs: Bufs, i: int)
    requires
        m.wf(),
        m.static_ctx is Some,
        0 <= i < m.states.len(),
        m.states[i] matches MixState::Linear(g) && {
            &&& g.conv.fixed is Some
            &&& g.s.fixed is Some
            &&& g.conv.fixed->0.id != g.s.fixed->0.id
            &&& unfixed(m.states@, i + 1, g.conv.fixed->0.id as int)
            &&& unfixed(m.states@, i + 1, g.s.fixed->0.id as int)
        },
        unfixed(m.states@, 0, m.static_ctx->0.pos.id as int),
    ensures
        m.reset_effect(device, bufs) matches Ok(b) ==> {
            let g = m.states[i]->Linear_0;
            let (c, s) = (g.conv.fixed->0, g.s.fixed->0);
            &&& counted(b[m.static_ctx->0.pos.id as int]) == Some(0int)
            &&& b[c.id as int] == Term::Leaf(Op::Zeros { shape: c.shape, dtype: DType::F32 })
            &&& b[s.id as int] == Term::Leaf(Op::Zeros { shape: s.shape, dtype: DType::F32 })
        },
{
    let n = m.states.len() as int;
    let g = m.states[i]->Linear_0;
    let ctx = m.static_ctx->0;
    if let Ok(b) = linked(bufs, u32_effect(device, bufs, ctx.pos, 0)) {
        lemma_wiping_frame(device, m.states@, b, 0, n, ctx.pos.id as int);
        lemma_wiping_frame(device, m.states@, b, i + 1, n, g.conv.fixed->0.id as int);
        lemma_wiping_frame(device, m.states@, b, i + 1, n, g.s.fixed->0.id as int);
    }
}

/// A delta-net layer steps alike from fixed buffers that hold the same: what
/// was rewound steps as what was just made.
pub proof fn law_rewound_layer_steps_alike(
    g: GatedDeltaNet,
    device: Device,
    x: Val,
    state: GdnState,
    buffers: (Seq<Buf>, Seq<Buf>),
    a: Bufs,
    b: Bufs,
)
    requires
        state.conv.fixed matches Some(c) ==> a[c.id as int] == b[c.id as int],
        state.s.fixed matches Some(s) ==> a[s.id as int] == b[s.id as int],
    ensures
        match (
            g.step_pass(device, x, state, buffers.0, a),
            g.step_pass(device, x, state, buffers.1, b),
        ) {
            (Ok(p), Ok(q)) => {
                &&& p.out == q.out
                &&& p.bufs[state.conv.fixed->0.id as int] == q.bufs[state.conv.fixed->0.id as int]
                &&& p.bufs[state.s.fixed->0.id as int] == q.bufs[state.s.fixed->0.id as int]
            },
            (Err(d), Err(e)) => d.error == e.error,
            _ => false,
        },
{
}

/// Turning the static path on a second time makes nothing new.
pub proof fn law_enabling_twice(
    m: Model,
    states: Seq<MixState>,
    max_seq: usize,
    again: usize,
    u: (Seq<Buf>, Bufs),
    v: (Seq<Buf>, Bufs),
    n: int,
)
    requires
        0 <= n <= m.layers.len(),
        states.len() == m.layers.len(),
    ensures
        ({
            let once = m.enabled(states, max_seq, u.0, u.1, n).0;
            m.enabled(once, again, v.0, v.1, n) == (once, v.0, v.1)
        }),
{
    lemma_enabled_settles(m, states, max_seq, u, n);
    let once = m.enabled(states, max_seq, u.0, u.1, n).0;
    lemma_settled_stay(m, once, again, v, n);
}

/// A mixer that has its static buffers.
pub open spec fn settled(mixer: Mixer, s: MixState) -> bool {
    match (mixer, s) {
        (Mixer::Full(_), MixState::Full(kv)) => kv.statics is Some,
        (Mixer::Linear(_), MixState::Linear(g)) => g.conv.fixed is Some && g.s.fixed is Some,
        _ => true,
    }
}

proof fn lemma_enabled_settles(
    m: Model,
    states: Seq<MixState>,
    max_seq: usize,
    u: (Seq<Buf>, Bufs),
    n: int,
)
    requires
        0 <= n <= m.layers.len(),
        states.len() == m.layers.len(),
    ensures
        ({
            let once = m.enabled(states, max_seq, u.0, u.1, n).0;
            &&& once.len() == states.len()
            &&& forall|i: int| n <= i < states.len() ==> #[trigger] once[i] == states[i]
            &&& forall|i: int| 0 <= i < n ==> settled(m.layers[i].mixer, #[trigger] once[i])
        }),
    decreases n,
{
    if n > 0 {
        lemma_enabled_settles(m, states, max_seq, u, n - 1);
    }
}

proof fn lemma_settled_stay(
    m: Model,
    states: Seq<MixState>,
    max_seq: usize,
    u: (Seq<Buf>, Bufs),
    n: int,
)
    requires
        0 <= n <= m.layers.len(),
        states.len() == m.layers.len(),
        forall|i: int| 0 <= i < n ==> settled(m.layers[i].mixer, #[trigger] states[i]),
    ensures
        m.enabled(states, max_seq, u.0, u.1, n) == (states, u.0, u.1),
    decreases n,
{
    if n > 0 {
        lemma_settled_stay(m, states, max_seq, u, n - 1);
        assert(settled(m.layers[n - 1].mixer, states[n - 1]));
        assert(states.update(n - 1, states[n - 1]) =~= states);
    }
}

/// The layers from `i` on with the plans known beforehand, one per layer.
pub open spec fn straight(
    m: Model,
    device: Device,
    mode: Mode,
    plans: Seq<Seq<Seq<usize>>>,
    i: int,
    f: Flow,
) -> Result<Flow, Error>
    decreases m.layers.len() - i,
{
    if i < 0 || i >= m.layers.len() {
        Ok(f)
    } else {
        let layer = m.layers[i];
        match layer.halfway(device, mode, m.rotary, f.x, f.states[i], f.buffers, f.bufs) {
            Err(x) => Err(x.error),
            Ok(h) => straight(
                m,
                device,
                mode,
                plans,
                i + 1,
                Flow {
                    x: layer.finished(
                        h.x,
                        h.normed,
                        h.probs,
                        if layer.host_routed() { plans[i] } else { Seq::empty() },
                    ),
                    bufs: h.bufs,
                    buffers: h.buffers,
                    states: f.states.update(i, h.state),
                },
            ),
        }
    }
}

/// Stopping for the host changes nothing: going on from where a run paused
/// gives what the run would have given with the plans known beforehand.
pub proof fn law_pausing_is_transparent(
    m: Model,
    device: Device,
    mode: Mode,
    plans: Seq<Seq<Seq<usize>>>,
    i: int,
    f: Flow,
)
    requires
        0 <= i <= m.layers.len(),
    ensures
        match m.run(device, mode, i, f) {
            Ran::Failed(x) => straight(m, device, mode, plans, i, f) == Err::<Flow, Error>(
                x.error,
            ),
            Ran::Through(g) => straight(m, device, mode, plans, i, f) == Ok::<Flow, Error>(g),
            Ran::Paused(j, h, states) => {
                &&& i <= j < m.layers.len()
                &&& straight(m, device, mode, plans, i, f) == straight(
                    m,
                    device,
                    mode,
                    plans,
                    j + 1,
                    Flow {
                        x: m.layers[j].finished(h.x, h.normed, h.probs, plans[j]),
                        bufs: h.bufs,
                        buffers: h.buffers,
                        states,
                    },
                )
            },
        },
    decreases m.layers.len() - i,
{
    if i < m.layers.len() {
        let layer = m.layers[i];
        if let Ok(h) = layer.halfway(
            device,
            mode,
            m.rotary,
            f.x,
            f.states[i],
            f.buffers,
            f.bufs,
        ) {
            if !layer.host_routed() {
                law_pausing_is_transparent(
                    m,
                    device,
                    mode,
                    plans,
                    i + 1,
                    Flow {
                        x: layer.finished(h.x, h.normed, h.probs, Seq::empty()),
                        bufs: h.bufs,
                        buffers: h.buffers,
                        states: f.states.update(i, h.state),
                    },
                );
            }
        }
    }
}

/// A rotation looked up at the counted position is the rotation there.
proof fn lemma_same_rotation(r: Rotary, x: Val, at: Val, n: usize, hd: usize)
    requires
        counted(at.term) == Some(n as int),
    ensures
        resolved(r.at_rows(x, at, hd).term) == resolved(r.at(x, n, 1, hd).term),
{
    reveal(un);
    reveal(bin);
    reveal(tri);
    reveal_with_fuel(resolved, 6);
}

/// Moving a prefill over keeps every key and value: row `i` of the static
/// buffers is position `i` of the growing cache.
pub proof fn law_migration_keeps_rows(device: Device, kv: FullKv, bufs: Bufs)
    requires
        kv.cache.filled,
        kv.cache.wf(),
        kv.statics matches Some(s) ==> s.k.id != s.v.id,
    ensures
        FullAttention::migrated(device, kv, bufs) matches Ok((n, b)) ==> {
            let (s, c) = (kv.statics->0, kv.cache.bufs->0);
            let (k, v) = (bufs[c.k.id as int], bufs[c.v.id as int]);
            &&& n == kv.cache.len()
            &&& rows_agree(b[s.k.id as int], k, k, n as int)
            &&& rows_agree(b[s.v.id as int], v, v, n as int)
        },
{
    reveal(un);
}

/// A replayed step and an eager pass over one token do the same to what an
/// attention layer remembers: on the same input, and with the same keys and
/// values remembered so far, the static buffers and the growing cache hold the
/// same keys and values afterwards.
pub proof fn law_step_remembers_the_same(
    a: FullAttention,
    device: Device,
    x: Val,
    rotary: Rotary,
    ctx: QwenStaticCtx,
    n: usize,
    fixed: KvBufs,
    cache: CatCache,
    bases: (Term, Term),
    stepped: (Seq<Buf>, Bufs),
    eager: (Seq<Buf>, Bufs),
)
    requires
        a.wf(),
        x.shape.rank == 3,
        x.shape.d0 == 1,
        x.shape.d1 == 1,
        fixed.k.id != fixed.v.id,
        cache.filled,
        cache.wf(),
        cache.bufs->0.k.id != cache.bufs->0.v.id,
        n < rotary.rows(),
        counted(stepped.1[ctx.pos.id as int]) == Some(n as int),
        rows_agree(
            stepped.1[fixed.k.id as int],
            bases.0,
            eager.1[cache.bufs->0.k.id as int],
            n as int,
        ),
        rows_agree(
            stepped.1[fixed.v.id as int],
            bases.1,
            eager.1[cache.bufs->0.v.id as int],
            n as int,
        ),
    ensures
        ({
            let kv = FullKv { cache, statics: Some(fixed) };
            let step = a.step_pass(
                device,
                x,
                rotary,
                ctx.pos,
                ctx.mask,
                kv,
                stepped.0,
                stepped.1,
            );
            step matches Ok(s) ==> {
                &&& a.pass(x, rotary, n, kv, eager.0, eager.1) matches Ok(e)
                &&& rows_agree(
                    s.bufs[fixed.k.id as int],
                    bases.0,
                    e.bufs[cache.bufs->0.k.id as int],
                    n + 1,
                )
                &&& rows_agree(
                    s.bufs[fixed.v.id as int],
                    bases.1,
                    e.bufs[cache.bufs->0.v.id as int],
                    n + 1,
                )
            }
        }),
{
    let hd = a.head_dim;
    let at = held(stepped.1, ctx.pos);
    let c = cache.bufs->0;
    let row = Op::Reshape(d3(a.n_kv_heads, 1, hd));
    let (ks, ke) = (
        rotary.at_rows(a.key(x, 1, 1), at, hd),
        rotary.at(a.key(x, 1, 1), n, 1, hd),
    );
    let v = a.value(x, 1, 1);
    lemma_same_rotation(rotary, a.key(x, 1, 1), at, n, hd);
    assert(bare(un(row, ks).term) == ks.term && bare(un(row, v).term) == v.term) by {
        reveal(un);
    }
    let (k0, v0) = (eager.1[c.k.id as int], eager.1[c.v.id as int]);
    assert(bin(Op::Cat(2), held(eager.1, c.k), ke).term == Term::Bin(
        Op::Cat(2),
        Box::new(k0),
        Box::new(ke.term),
    ) && bin(Op::Cat(2), held(eager.1, c.v), v).term == Term::Bin(
        Op::Cat(2),
        Box::new(v0),
        Box::new(v.term),
    )) by {
        reveal(bin);
    }
    law_row_joins(
        stepped.1[fixed.k.id as int],
        bases.0,
        k0,
        n as int,
        un(row, ks).term,
        ke.term,
        at.term,
        Op::Cat(2),
    );
    law_row_joins(
        stepped.1[fixed.v.id as int],
        bases.1,
        v0,
        n as int,
        un(row, v).term,
        v.term,
        at.term,
        Op::Cat(2),
    );
}

/// The mask of a step at position `n` lets through the positions up to `n`,
/// which is what a growing cache hands out.
pub proof fn law_step_mask_is_the_view(
    ctx: QwenStaticCtx,
    device: Device,
    bufs: Bufs,
    n: int,
    j: int,
)
    requires
        counted(bufs[ctx.pos.id as int]) == Some(n),
        0 <= j,
    ensures
        mask_row_effect(device, bufs, ctx.mask, ctx.pos, 0) matches Ok(b) ==> cell_blocked(
            b[ctx.mask.id as int],
            j,
        ) == Some(j > n),
{
}

/// A replayed step and an eager pass differ in the mixer only: where it comes
/// out the same, so does everything that follows in the layer.
pub proof fn law_ways_share_the_rest(
    layer: DecoderLayer,
    device: Device,
    rotary: Rotary,
    x: Val,
    modes: (Mode, Mode),
    states: (MixState, MixState),
    buffers: (Seq<Buf>, Seq<Buf>),
    bufs: (Bufs, Bufs),
)
    requires
        ({
            let y = layer.input_layernorm.apply(x);
            let m = layer.mixer;
            let a = m.mixed(device, modes.0, rotary, y, states.0, buffers.0, bufs.0);
            let b = m.mixed(device, modes.1, rotary, y, states.1, buffers.1, bufs.1);
            a is Ok && b is Ok && a->Ok_0.out == b->Ok_0.out
        }),
    ensures
        match (
            layer.halfway(device, modes.0, rotary, x, states.0, buffers.0, bufs.0),
            layer.halfway(device, modes.1, rotary, x, states.1, buffers.1, bufs.1),
        ) {
            (Ok(a), Ok(b)) => a.x == b.x && a.normed == b.normed && a.probs == b.probs,
            (Err(d), Err(e)) => d.error == e.error,
            _ => false,
        },
{
    reveal(DecoderLayer::halfway);
}

/// A quantized model loads warm: the experts of every layer, stacked or not, are
/// served from a cache that holds them under their own names.
pub proof fn law_warm_experts(
    m: Model,
    l: Loader,
    cfg: Qwen35TextConfig,
    vb: Seq<char>,
    quant: Option<GgmlDType>,
    rot: usize,
    language_model: bool,
    sources: Seq<ExpertSource>,
    cache: QCache,
    layer: int,
    i: int,
)
    requires
        m.asked(l, cfg, vb, quant, rot, language_model, sources),
        quant is Some,
        0 <= layer < m.layers.len(),
        m.layers[layer].ffn is Moe,
        0 <= i < m.layers[layer].ffn->Moe_0.experts.len(),
        ({
            let root = Model::root(vb, language_model);
            let own = pp(pp(pp(root, "layers"@), decimal(layer as nat)), "mlp"@);
            let (gate, up, down) = expert_keys(own, i);
            cache.served() matches Some(names) && names.contains(gate) && names.contains(up)
                && names.contains(down)
        }),
    ensures
        ({
            let e = m.layers[layer].ffn->Moe_0.experts[i];
            &&& warm(request_of(l, e.gate_proj), cache)
            &&& warm(request_of(l, e.up_proj), cache)
            &&& warm(request_of(l, e.down_proj), cache)
        }),
{
    let root = Model::root(vb, language_model);
    let own = pp(pp(root, "layers"@), decimal(layer as nat));
    assert(m.layers[layer].asked(l, cfg, layer, own, quant, sources[layer]));
    reveal(DecoderLayer::ffn_asked);
    law_warm_expert(
        m.layers[layer].ffn->Moe_0,
        l,
        cfg,
        pp(own, "mlp"@),
        quant,
        sources[layer],
        cache,
        i,
    );
}

} // verus!
