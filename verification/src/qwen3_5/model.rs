use vstd::prelude::*;

use crate::dtype::{DType, Device};
use crate::error::Error;
use crate::kv_cache::CatCache;
use crate::loader::{decimal, plain, pp, quantized, Loader, Proj, Recipe, VarPath};
use crate::quant::{quant_dtype, quant_dtype_for, GgmlDType};
use crate::qwen3_5::attention::{FullAttention, FullKv};
use crate::qwen3_5::config::Qwen35TextConfig;
use crate::qwen3_5::delta::{GatedDeltaNet, GdnState, Live, Slot};
use crate::qwen3_5::ffn::{ExpertSource, Ffn, SparseMoe};
use crate::qwen3_5::layer::{
    lemma_layer_grows, DecoderLayer, Halfway, HalfwayOut, MixState, Mixer, Mode, QwenStaticCtx,
};
use crate::qwen3_5::norm::{qproj, suited, RmsNormPlus1, Rotary};
use crate::routing::{law_plan_unique, plan_of, rows_view};
use crate::shape::{d1, d2};
use crate::static_decode::{
    advance_effect, chain_ended, incr_u32, linked, mask_from_pos, mask_row_effect, u32_effect,
    write_u32, Refused,
};
use crate::tape::{
    opt_val, plan_view, un, Buf, Bufs, Op, RoutingPlan, Tape, Tensor, Term, Val, Weight,
};

verus! {

#[derive(Debug)]
pub struct Model {
    pub embed_tokens: Weight,
    pub layers: Vec<DecoderLayer>,
    /// What each layer keeps between passes.
    pub states: Vec<MixState>,
    pub norm: RmsNormPlus1,
    pub lm_head: Proj,
    pub rotary: Rotary,
    /// Absolute position of the next token.
    pub pos: usize,
    pub static_ctx: Option<QwenStaticCtx>,
}

/// A value on its way through the layers, with everything a pass changes.
pub struct Flow {
    pub x: Val,
    pub bufs: Bufs,
    pub buffers: Seq<Buf>,
    pub states: Seq<MixState>,
}

/// Why a job stopped, and what it leaves behind.
pub struct Failure {
    pub error: Error,
    pub bufs: Bufs,
    pub buffers: Seq<Buf>,
    pub states: Seq<MixState>,
}

/// Where a run through the layers ends.
pub enum Ran {
    Failed(Failure),
    /// At a layer whose experts the host has to choose.
    Paused(int, HalfwayOut, Seq<MixState>),
    Through(Flow),
}

/// [`Ran`] for the recorder.
enum Layered {
    Paused { layer: usize, half: Halfway },
    Through { x: Tensor },
}

/// What a run through the layers is for.
#[derive(Clone, Copy, PartialEq, Eq, Structural, Debug)]
pub enum Task {
    /// Logits of the last of `seq` positions.
    Forward { seq: usize },
    /// One decode step at the position held on the device.
    Step { ctx: QwenStaticCtx },
}

/// How a job ends, or where it waits for the host.
pub enum Outcome {
    Failed(Failure),
    Paused(Task, Mode, int, HalfwayOut, Seq<MixState>),
    Done { logits: Val, bufs: Bufs, buffers: Seq<Buf>, states: Seq<MixState>, steps: int },
}

/// A job that waits until the host has chosen the experts of a layer.
#[derive(Clone, Copy)]
pub struct Pass {
    pub task: Task,
    pub mode: Mode,
    pub layer: usize,
    pub half: Halfway,
}

/// A job that waits for the host, or has ended.
#[derive(Clone, Copy)]
pub enum Progress {
    /// The probabilities in `half.probs` are to be read back and handed to
    /// [`Model::resume`].
    Route(Pass),
    Done { logits: Tensor },
}

impl Model {
    pub open spec fn wf(self) -> bool {
        &&& self.layers.len() == self.states.len()
        &&& forall|i: int| 0 <= i < self.layers.len() ==> (#[trigger] self.layers[i]).wf(self.rotary)
        &&& forall|i: int|
            0 <= i < self.layers.len() ==> self.layers[i].mixer.suits(#[trigger] self.states[i])
    }

    /// Only what the layers keep differs, and the position.
    pub open spec fn same_but_states(self, before: Model) -> bool {
        &&& self == (Model { states: self.states, pos: self.pos, ..before })
        &&& self.states.len() == before.states.len()
    }

    /// The mask of a pass over `seq` positions can be written down, in every
    /// layer from `i` on.
    pub open spec fn fits(self, states: Seq<MixState>, mode: Mode, seq: usize, i: int) -> bool {
        forall|j: int|
            i <= j < self.layers.len() ==> self.layers[j].mixer.fits(#[trigger] states[j], mode, seq)
    }

    /// The layers from `i` on, until the end or a layer whose experts the host
    /// has to choose.
    pub open spec fn run(self, device: Device, mode: Mode, i: int, f: Flow) -> Ran
        decreases self.layers.len() - i,
    {
        if i < 0 || i >= self.layers.len() {
            Ran::Through(f)
        } else {
            let layer = self.layers[i];
            match layer.halfway(device, mode, self.rotary, f.x, f.states[i], f.buffers, f.bufs) {
                Err(x) => Ran::Failed(
                    Failure {
                        error: x.error,
                        bufs: x.bufs,
                        buffers: x.buffers,
                        states: f.states.update(i, x.state),
                    },
                ),
                Ok(h) => {
                    let states = f.states.update(i, h.state);
                    if layer.host_routed() {
                        Ran::Paused(i, h, states)
                    } else {
                        self.run(
                            device,
                            mode,
                            i + 1,
                            Flow {
                                x: layer.finished(h.x, h.normed, h.probs, Seq::empty()),
                                bufs: h.bufs,
                                buffers: h.buffers,
                                states,
                            },
                        )
                    }
                },
            }
        }
    }

    fn run_layers(&mut self, t: &mut Tape, x: Tensor, mode: Mode, from: usize) -> (r: Result<
        Layered,
        Error,
    >)
        requires
            old(self).wf(),
            from <= old(self).layers.len(),
            old(t).has(x),
            old(self).fits(old(self).states@, mode, x.shape.d1, from as int),
        ensures
            final(t).grew(*old(t)),
            final(self).wf(),
            final(self).same_but_states(*old(self)),
            final(self).pos == old(self).pos,
            match old(self).run(
                old(t).on(),
                mode,
                from as int,
                Flow {
                    x: x@,
                    bufs: old(t).bufs(),
                    buffers: old(t).buffers(),
                    states: old(self).states@,
                },
            ) {
                Ran::Failed(x) => {
                    &&& r == Err::<Layered, Error>(x.error)
                    &&& final(t).bufs() == x.bufs
                    &&& final(t).buffers() == x.buffers
                    &&& final(self).states@ == x.states
                },
                Ran::Paused(i, h, states) => {
                    &&& r matches Ok(Layered::Paused { layer, half })
                    &&& layer == i
                    &&& from <= layer < old(self).layers.len()
                    &&& old(self).layers[i].host_routed()
                    &&& half.on(*final(t))
                    &&& half.probs is Some
                    &&& half.x@ == h.x
                    &&& half.normed@ == h.normed
                    &&& opt_val(half.probs) == h.probs
                    &&& half.x.shape == x.shape
                    &&& final(t).bufs() == h.bufs
                    &&& final(t).buffers() == h.buffers
                    &&& final(self).states@ == states
                    &&& old(self).fits(states, mode, x.shape.d1, i + 1)
                },
                Ran::Through(f) => {
                    &&& r matches Ok(Layered::Through { x })
                    &&& final(t).has(x)
                    &&& x@ == f.x
                    &&& final(t).bufs() == f.bufs
                    &&& final(t).buffers() == f.buffers
                    &&& final(self).states@ == f.states
                },
            },
    {
        let ghost device = t.on();
        let ghost want = old(self).run(
            device,
            mode,
            from as int,
            Flow { x: x@, bufs: t.bufs(), buffers: t.buffers(), states: self.states@ },
        );
        let mut cur = x;
        let mut i: usize = from;
        while i < self.layers.len()
            invariant
                from <= i <= self.layers.len(),
                self.wf(),
                self.same_but_states(*old(self)),
                self.pos == old(self).pos,
                t.grew(*old(t)),
                device == t.on(),
                device == old(t).on(),
                t.has(cur),
                cur.shape == x.shape,
                self.fits(self.states@, mode, x.shape.d1, i as int),
                want == old(self).run(
                    device,
                    mode,
                    from as int,
                    Flow {
                        x: x@,
                        bufs: old(t).bufs(),
                        buffers: old(t).buffers(),
                        states: old(self).states@,
                    },
                ),
                want == old(self).run(
                    device,
                    mode,
                    i as int,
                    Flow { x: cur@, bufs: t.bufs(), buffers: t.buffers(), states: self.states@ },
                ),
            decreases self.layers.len() - i,
        {
            let ghost before = self.states@;
            let rotary = self.rotary;
            assert(self.layers[i as int].mixer.suits(self.states[i as int]));
            assert(self.layers[i as int].mixer.fits(before[i as int], mode, x.shape.d1));
            let begun = self.layers[i].begin(t, &mut self.states[i], cur, &rotary, mode);
            proof {
                assert(self.states@ =~= before.update(i as int, self.states@[i as int]));
                assert forall|j: int| i + 1 <= j < self.layers.len() implies self.layers[
                    j].mixer.fits(#[trigger] self.states@[j], mode, x.shape.d1) by {
                    assert(self.states@[j] == before[j]);
                }
            }
            let half = begun?;
            if half.probs.is_some() {
                return Ok(Layered::Paused { layer: i, half });
            }
            let plan: RoutingPlan = Vec::new();
            assert(plan_view(plan) =~= Seq::<Seq<usize>>::empty());
            cur = self.layers[i].finish(t, half, plan)?;
            i += 1;
        }
        Ok(Layered::Through { x: cur })
    }

    /// What follows when `x` has come out of the last layer: logits, contents,
    /// and how many positions were taken in.
    pub open spec fn tail(self, device: Device, task: Task, x: Val, bufs: Bufs) -> Result<
        (Val, Bufs, int),
        Error,
    > {
        match task {
            Task::Forward { seq } => {
                let last = un(Op::Narrow { dim: 1, start: (seq - 1) as usize, len: 1 }, x);
                Ok((self.lm_head.apply(self.norm.apply(last)), bufs, seq as int))
            },
            Task::Step { ctx } => match advance_effect(device, bufs, ctx.pos, 1) {
                Err(e) => Err(e),
                Ok(b) => {
                    let row = un(Op::Select { dim: 1, index: 0 }, self.norm.apply(x));
                    Ok((self.lm_head.apply(row), b, 1))
                },
            },
        }
    }

    /// The whole job from layer `i` on.
    pub open spec fn drive(self, device: Device, task: Task, mode: Mode, i: int, f: Flow) -> Outcome {
        match self.run(device, mode, i, f) {
            Ran::Failed(x) => Outcome::Failed(x),
            Ran::Paused(i, h, states) => Outcome::Paused(task, mode, i, h, states),
            Ran::Through(g) => match self.tail(device, task, g.x, g.bufs) {
                Err(error) => Outcome::Failed(
                    Failure { error, bufs: g.bufs, buffers: g.buffers, states: g.states },
                ),
                Ok((logits, bufs, steps)) => Outcome::Done {
                    logits,
                    bufs,
                    buffers: g.buffers,
                    states: g.states,
                    steps,
                },
            },
        }
    }

    /// Positions that a task takes in.
    pub open spec fn taken(task: Task) -> int {
        match task {
            Task::Forward { seq } => seq as int,
            Task::Step { ctx } => 1,
        }
    }

    /// `p` waits for the experts of a layer of this model, on tape `t`.
    pub open spec fn waits(self, p: Pass, t: Tape) -> bool {
        &&& p.layer < self.layers.len()
        &&& self.layers[p.layer as int].host_routed()
        &&& p.half.on(t)
        &&& p.half.probs is Some
        &&& self.fits(self.states@, p.mode, p.half.x.shape.d1, p.layer + 1)
        &&& p.task matches Task::Forward { seq } ==> seq > 0
        &&& self.pos + Self::taken(p.task) <= usize::MAX
    }

    /// `r` and the state after the call are what `want` says; `pos` is where
    /// the model stood.
    pub open spec fn gave(self, r: Result<Progress, Error>, t: Tape, want: Outcome, pos: usize) -> bool {
        match want {
            Outcome::Failed(x) => {
                &&& r == Err::<Progress, Error>(x.error)
                &&& t.bufs() == x.bufs
                &&& t.buffers() == x.buffers
                &&& self.states@ == x.states
                &&& self.pos == pos
            },
            Outcome::Paused(task, mode, layer, h, states) => {
                &&& r matches Ok(Progress::Route(p))
                &&& self.waits(p, t)
                &&& p.task == task
                &&& p.mode == mode
                &&& p.layer == layer
                &&& p.half.x@ == h.x
                &&& p.half.normed@ == h.normed
                &&& opt_val(p.half.probs) == h.probs
                &&& t.bufs() == h.bufs
                &&& t.buffers() == h.buffers
                &&& self.states@ == states
                &&& self.pos == pos
            },
            Outcome::Done { logits: l, bufs, buffers, states, steps } => {
                &&& r matches Ok(Progress::Done { logits })
                &&& t.has(logits)
                &&& logits@ == l
                &&& t.bufs() == bufs
                &&& t.buffers() == buffers
                &&& self.states@ == states
                &&& self.pos == pos + steps
            },
        }
    }

    fn work(&mut self, t: &mut Tape, task: Task, mode: Mode, x: Tensor, from: usize) -> (r: Result<
        Progress,
        Error,
    >)
        requires
            old(self).wf(),
            from <= old(self).layers.len(),
            old(t).has(x),
            old(self).fits(old(self).states@, mode, x.shape.d1, from as int),
            task matches Task::Forward { seq } ==> seq > 0,
            old(self).pos + Self::taken(task) <= usize::MAX,
        ensures
            final(t).grew(*old(t)),
            final(self).wf(),
            final(self).same_but_states(*old(self)),
            final(self).gave(
                r,
                *final(t),
                old(self).drive(
                    old(t).on(),
                    task,
                    mode,
                    from as int,
                    Flow {
                        x: x@,
                        bufs: old(t).bufs(),
                        buffers: old(t).buffers(),
                        states: old(self).states@,
                    },
                ),
                old(self).pos,
            ),
    {
        match self.run_layers(t, x, mode, from)? {
            Layered::Paused { layer, half } => {
                Ok(Progress::Route(Pass { task, mode, layer, half }))
            },
            Layered::Through { x } => match task {
                Task::Forward { seq } => {
                    self.pos = self.pos + seq;
                    let last = t.un(Op::Narrow { dim: 1, start: seq - 1, len: 1 }, x);
                    let y = self.norm.forward(t, last);
                    let logits = self.lm_head.forward(t, y);
                    Ok(Progress::Done { logits })
                },
                Task::Step { ctx } => {
                    let y = self.norm.forward(t, x);
                    let y = t.un(Op::Select { dim: 1, index: 0 }, y);
                    proof {
                        crate::fused::lemma_contiguous(y@);
                    }
                    let y = t.un(Op::Contiguous, y);
                    let logits = self.lm_head.forward(t, y);
                    incr_u32(t, ctx.pos)?;
                    self.pos = self.pos + 1;
                    Ok(Progress::Done { logits })
                },
            },
        }
    }

    /// The model with its caches cleared where a new sequence begins.
    pub open spec fn rewound(self, start_pos: usize) -> (Seq<MixState>, usize) {
        if start_pos == 0 && self.pos != 0 {
            (cleared_states(self.states@), 0)
        } else {
            (self.states@, self.pos)
        }
    }

    /// A pass over token numbers.
    pub open spec fn forward_job(
        self,
        device: Device,
        ids: Val,
        start_pos: usize,
        bufs: Bufs,
        buffers: Seq<Buf>,
    ) -> Outcome {
        let (states, pos) = self.rewound(start_pos);
        if ids.shape.rank != 2 {
            let error = Error::UnexpectedRank { expected: 2, got: ids.shape.rank };
            Outcome::Failed(Failure { error, bufs, buffers, states })
        } else {
            self.drive(
                device,
                Task::Forward { seq: ids.shape.d1 },
                Mode::Pass { pos },
                0,
                Flow { x: un(Op::Embedding(self.embed_tokens), ids), bufs, buffers, states },
            )
        }
    }

    /// Records a pass over a whole chunk of token numbers `[1, seq]`. A pass
    /// from position zero begins a new sequence. Ends with the logits of the
    /// last position.
    pub fn forward(&mut self, t: &mut Tape, input: Tensor, start_pos: usize) -> (r: Result<
        Progress,
        Error,
    >)
        requires
            old(self).wf(),
            old(t).has(input),
            input.shape.rank == 2 ==> {
                &&& input.shape.d1 > 0
                &&& old(self).pos + input.shape.d1 <= usize::MAX
                &&& old(self).fits(
                    old(self).states@,
                    Mode::Pass { pos: old(self).pos },
                    input.shape.d1,
                    0,
                )
            },
        ensures
            final(t).grew(*old(t)),
            final(self).wf(),
            final(self).same_but_states(*old(self)),
            final(self).gave(
                r,
                *final(t),
                old(self).forward_job(
                    old(t).on(),
                    input@,
                    start_pos,
                    old(t).bufs(),
                    old(t).buffers(),
                ),
                old(self).rewound(start_pos).1,
            ),
    {
        let ghost before = *self;
        if start_pos == 0 && self.pos != 0 {
            self.clear_kv_cache();
        }
        proof {
            lemma_same_drive(
                *self,
                before,
                t.on(),
                Task::Forward { seq: input.shape.d1 },
                Mode::Pass { pos: self.pos },
                0,
                Flow {
                    x: un(Op::Embedding(self.embed_tokens), input@),
                    bufs: t.bufs(),
                    buffers: t.buffers(),
                    states: self.states@,
                },
            );
        }
        let (_b, seq) = input.dims2()?;
        proof {
            lemma_fits_cleared(before, *self, seq);
        }
        let x = t.un(Op::Embedding(self.embed_tokens), input);
        assert(x@.shape.d1 == seq) by {
            reveal(un);
        }
        let pos: usize = self.pos;
        self.work(t, Task::Forward { seq }, Mode::Pass { pos }, x, 0)
    }

    /// A waiting job, with the experts in `plan`.
    pub open spec fn resumed(
        self,
        device: Device,
        p: Pass,
        plan: Seq<Seq<usize>>,
        bufs: Bufs,
        buffers: Seq<Buf>,
    ) -> Outcome {
        let i = p.layer as int;
        if p.half.normed.shape.rank != 3 {
            let error = Error::UnexpectedRank { expected: 3, got: p.half.normed.shape.rank };
            Outcome::Failed(Failure { error, bufs, buffers, states: self.states@ })
        } else {
            let x = self.layers[i].finished(
                p.half.x@,
                p.half.normed@,
                opt_val(p.half.probs),
                plan,
            );
            self.drive(
                device,
                p.task,
                p.mode,
                i + 1,
                Flow { x, bufs, buffers, states: self.states@ },
            )
        }
    }

    /// The experts of layer `i`.
    pub open spec fn moe_of(self, i: int) -> SparseMoe {
        self.layers[i].ffn->Moe_0
    }

    /// Goes on with a waiting job, given the rows of probabilities that the
    /// device computed, as bits.
    pub fn resume(&mut self, t: &mut Tape, pass: Pass, rows: &Vec<Vec<u32>>) -> (r: Result<
        Progress,
        Error,
    >)
        requires
            old(self).wf(),
            old(self).waits(pass, *old(t)),
        ensures
            final(t).grew(*old(t)),
            final(self).wf(),
            final(self).same_but_states(*old(self)),
            ({
                let moe = old(self).moe_of(pass.layer as int);
                match moe.rows_ok(rows_view(*rows)) {
                    Some(e) => {
                        &&& r == Err::<Progress, Error>(e)
                        &&& *final(self) == *old(self)
                        &&& final(t).computed(*old(t))
                    },
                    None => final(self).gave(
                        r,
                        *final(t),
                        old(self).resumed(
                            old(t).on(),
                            pass,
                            plan_of(rows_view(*rows), moe.top_k as int),
                            old(t).bufs(),
                            old(t).buffers(),
                        ),
                        old(self).pos,
                    ),
                }
            }),
    {
        let layer: usize = pass.layer;
        assert(self.layers[layer as int].wf(self.rotary));
        let next = {
            let own = &self.layers[layer];
            let plan = match &own.ffn {
                Ffn::Moe(moe) => moe.choose_experts(rows)?,
                Ffn::Dense(_) => Vec::new(),
            };
            proof {
                law_plan_unique(
                    rows_view(*rows),
                    self.moe_of(layer as int).top_k as int,
                    plan_view(plan),
                );
            }
            own.finish(t, pass.half, plan)?
        };
        self.work(t, pass.task, pass.mode, next, layer + 1)
    }

    /// One decode step.
    pub open spec fn step_job(
        self,
        device: Device,
        ids: Val,
        bufs: Bufs,
        buffers: Seq<Buf>,
    ) -> Outcome {
        match self.static_ctx {
            None => Outcome::Failed(
                Failure {
                    error: Error::StaticNotEnabled,
                    bufs,
                    buffers,
                    states: self.states@,
                },
            ),
            Some(ctx) => match mask_row_effect(device, bufs, ctx.mask, ctx.pos, 0) {
                Err(error) => Outcome::Failed(
                    Failure { error, bufs, buffers, states: self.states@ },
                ),
                Ok(b) => self.drive(
                    device,
                    Task::Step { ctx },
                    Mode::Step { ctx },
                    0,
                    Flow {
                        x: un(Op::Embedding(self.embed_tokens), ids),
                        bufs: b,
                        buffers,
                        states: self.states@,
                    },
                ),
            },
        }
    }

    /// One decode step that can be replayed: `[1, 1]` token numbers to `[1,
    /// vocab]` logits.
    pub fn forward_static(&mut self, t: &mut Tape, input_ids: Tensor) -> (r: Result<Progress, Error>)
        requires
            old(self).wf(),
            old(t).has(input_ids),
            old(self).pos < usize::MAX,
        ensures
            final(t).grew(*old(t)),
            final(self).wf(),
            final(self).same_but_states(*old(self)),
            final(self).gave(
                r,
                *final(t),
                old(self).step_job(old(t).on(), input_ids@, old(t).bufs(), old(t).buffers()),
                old(self).pos,
            ),
    {
        let ctx = match self.static_ctx {
            None => {
                return Err(Error::StaticNotEnabled);
            },
            Some(ctx) => ctx,
        };
        mask_from_pos(t, ctx.mask, ctx.pos, 0)?;
        let x = t.un(Op::Embedding(self.embed_tokens), input_ids);
        self.work(t, Task::Step { ctx }, Mode::Step { ctx }, x, 0)
    }

    pub fn static_enabled(&self) -> (r: bool)
        ensures
            r == self.static_ctx is Some,
    {
        self.static_ctx.is_some()
    }

    /// The static state of the first `n` layers rewound: fixed buffers of
    /// recurrent state hold zeros again. Keys and values stay, out of sight of
    /// every mask until they are overwritten.
    pub open spec fn wiped(device: Device, states: Seq<MixState>, bufs: Bufs, n: int) -> Result<
        Bufs,
        Refused,
    >
        decreases n,
    {
        if n <= 0 {
            Ok(bufs)
        } else {
            match Self::wiped(device, states, bufs, n - 1) {
                Err(x) => Err(x),
                Ok(b) => match states[n - 1] {
                    MixState::Full(_) => Ok(b),
                    MixState::Linear(st) => GatedDeltaNet::wiped(device, st, b),
                },
            }
        }
    }

    /// The static state as it was when the static path was switched on.
    pub open spec fn reset_effect(self, device: Device, bufs: Bufs) -> Result<Bufs, Refused> {
        match self.static_ctx {
            None => Ok(bufs),
            Some(ctx) => match linked(bufs, u32_effect(device, bufs, ctx.pos, 0)) {
                Err(x) => Err(x),
                Ok(b) => Self::wiped(device, self.states@, b, self.states.len() as int),
            },
        }
    }

    /// Rewinds the static state between requests, never inside a captured
    /// graph: the position and the fixed buffers of every delta-net layer.
    pub fn reset_static(&mut self, t: &mut Tape) -> (r: Result<(), Error>)
        requires
            old(self).wf(),
        ensures
            *final(self) == *old(self),
            final(t).wrote(*old(t)),
            chain_ended(
                r,
                final(t).bufs(),
                old(self).reset_effect(old(t).on(), old(t).bufs()),
            ),
    {
        let ctx = match self.static_ctx {
            None => {
                return Ok(());
            },
            Some(ctx) => ctx,
        };
        write_u32(t, ctx.pos, 0)?;
        let ghost b0 = t.bufs();
        let ghost total = self.states.len() as int;
        let mut i: usize = 0;
        while i < self.layers.len()
            invariant
                i <= self.layers.len(),
                *self == *old(self),
                self.wf(),
                total == self.states.len(),
                t.wrote(*old(t)),
                Self::wiped(t.on(), self.states@, b0, i as int) == Ok::<Bufs, Refused>(t.bufs()),
                self.reset_effect(t.on(), old(t).bufs()) == Self::wiped(
                    t.on(),
                    self.states@,
                    b0,
                    total,
                ),
            decreases self.layers.len() - i,
        {
            assert(self.layers[i as int].mixer.suits(self.states[i as int]));
            assert(self.layers[i as int].wf(self.rotary));
            proof {
                lemma_wiping_stops(t.on(), self.states@, b0, i as int + 1, total);
            }
            match (&self.layers[i].mixer, self.states[i]) {
                (Mixer::Linear(g), MixState::Linear(st)) => {
                    g.wipe_static(t, &st)?;
                },
                _ => {},
            }
            i += 1;
        }
        Ok(())
    }

    /// Forgets everything and starts at position zero.
    pub fn clear_kv_cache(&mut self)
        requires
            old(self).wf(),
        ensures
            final(self).wf(),
            final(self).same_but_states(*old(self)),
            final(self).pos == 0,
            final(self).states@ == cleared_states(old(self).states@),
    {
        let mut i: usize = 0;
        while i < self.states.len()
            invariant
                i <= self.states.len(),
                self.wf(),
                old(self).wf(),
                self.same_but_states(*old(self)),
                forall|j: int| 0 <= j < i ==> #[trigger] self.states[j] == cleared(old(self).states[j]),
                forall|j: int| i <= j < self.states.len() ==> #[trigger] self.states[j] == old(self).states[j],
            decreases self.states.len() - i,
        {
            assert(self.layers[i as int].mixer.suits(self.states[i as int]));
            let new = match self.states[i] {
                MixState::Full(kv) => {
                    let mut kv = kv;
                    kv.cache.clear();
                    MixState::Full(kv)
                },
                MixState::Linear(s) => {
                    let mut s = s;
                    GatedDeltaNet::clear_state(&mut s);
                    MixState::Linear(s)
                },
            };
            self.states.set(i, new);
            i += 1;
        }
        assert(self.states@ =~= cleared_states(old(self).states@));
        self.pos = 0;
    }
}

impl Model {
    /// Path of the text stack: multimodal checkpoints keep it one level deeper.
    pub open spec fn root(vb: Seq<char>, language_model: bool) -> Seq<char> {
        if language_model {
            pp(pp(vb, "model"@), "language_model"@)
        } else {
            pp(vb, "model"@)
        }
    }

    /// The head was asked for: the embedding table itself or a quantized copy
    /// of it where the two are tied, a projection of its own otherwise.
    pub open spec fn head_asked(
        self,
        l: Loader,
        cfg: Qwen35TextConfig,
        vb: Seq<char>,
        quant: Option<GgmlDType>,
        language_model: bool,
    ) -> bool {
        let (h, v) = (cfg.hidden_size, cfg.vocab_size);
        if !cfg.tie_word_embeddings {
            self.lm_head.asked(l, h, v, false, pp(vb, "lm_head"@), suited(h, quant))
        } else {
            match quant {
                None => self.lm_head == (Proj::Plain { weight: self.embed_tokens, bias: None }),
                Some(q) => {
                    &&& self.lm_head matches Proj::Quant { weight, bias: None }
                    &&& l.gives(
                        weight,
                        quantized(
                            pp(pp(Self::root(vb, language_model), "embed_tokens"@), "weight"@),
                            "lm_head.tied"@,
                            d2(v, h),
                            Recipe::CopyOf(self.embed_tokens.id),
                            quant_dtype(h, q),
                            l.reads(),
                        ),
                    )
                },
            }
        }
    }

    /// Everything was asked of `l` as the configuration says.
    pub open spec fn asked(
        self,
        l: Loader,
        cfg: Qwen35TextConfig,
        vb: Seq<char>,
        quant: Option<GgmlDType>,
        rot: usize,
        language_model: bool,
        sources: Seq<ExpertSource>,
    ) -> bool {
        let root = Self::root(vb, language_model);
        let (h, v) = (cfg.hidden_size, cfg.vocab_size);
        &&& l.gives(
            self.embed_tokens,
            plain(pp(pp(root, "embed_tokens"@), "weight"@), d2(v, h), l.reads()),
        )
        &&& self.layers.len() == cfg.num_hidden_layers
        &&& forall|i: int|
            0 <= i < self.layers.len() ==> (#[trigger] self.layers[i]).asked(
                l,
                cfg,
                i,
                pp(pp(root, "layers"@), decimal(i as nat)),
                quant,
                sources[i],
            )
        &&& self.norm.asked(l, h, cfg.rms_norm_eps, pp(root, "norm"@))
        &&& self.head_asked(l, cfg, vb, quant, language_model)
        &&& self.rotary.asked(l, cfg, rot)
    }

    /// Stacked experts of some layer are refused.
    pub open spec fn refused(
        cfg: Qwen35TextConfig,
        quant: Option<GgmlDType>,
        sources: Seq<ExpertSource>,
        n: int,
    ) -> bool {
        exists|i: int| 0 <= i < n && DecoderLayer::refused(cfg, quant, #[trigger] sources[i])
    }

    /// How many tensors the first `n` layers are.
    pub open spec fn layer_tensors(cfg: Qwen35TextConfig, n: int) -> int
        decreases n,
    {
        if n <= 0 {
            0
        } else {
            Self::layer_tensors(cfg, n - 1) + DecoderLayer::tensors(cfg, n - 1)
        }
    }

    /// How many tensors a model is: the embeddings, the rotary tables, the
    /// layers, the last norm, and a head unless it is the embeddings.
    pub open spec fn tensors(cfg: Qwen35TextConfig, quant: Option<GgmlDType>) -> int {
        let head: int = if cfg.tie_word_embeddings && quant is None { 0 } else { 1 };
        4 + Self::layer_tensors(cfg, cfg.num_hidden_layers as int) + head
    }

    /// A model in the element type of the checkpoint.
    pub fn new(
        l: &mut Loader,
        cfg: &Qwen35TextConfig,
        vb: &VarPath,
        rot: usize,
        language_model: bool,
        sources: &Vec<ExpertSource>,
    ) -> (r: Result<Model, Error>)
        requires
            cfg.valid(),
            rot <= cfg.head_dim_spec(),
            sources.len() == cfg.num_hidden_layers,
        ensures
            final(l).grew(*old(l)),
            r is Ok ==> final(l).added(*old(l), Self::tensors(*cfg, None)),
            Self::refused(*cfg, None, sources@, cfg.num_hidden_layers as int) ==> r == Err::<
                Model,
                Error,
            >(Error::NotBlockAligned),
            !Self::refused(*cfg, None, sources@, cfg.num_hidden_layers as int) ==> {
                &&& r is Ok
                &&& r->Ok_0.wf()
                &&& r->Ok_0.asked(*final(l), *cfg, vb@, None, rot, language_model, sources@)
                &&& r->Ok_0.fresh()
            },
    {
        Self::new_with_quant(l, cfg, vb, None, rot, language_model, sources)
    }

    /// Nothing has been read yet.
    pub open spec fn fresh(self) -> bool {
        &&& self.pos == 0
        &&& self.static_ctx is None
        &&& forall|i: int|
            0 <= i < self.states.len() ==> #[trigger] self.states[i] == self.layers[i].mixer.blank()
    }

    /// Asks for everything the model needs. With `quant` set, every large
    /// projection is kept in that block type; `rot` is how many dims of a head
    /// rotate, and `sources` says how each layer's experts are stored.
    pub fn new_with_quant(
        l: &mut Loader,
        cfg: &Qwen35TextConfig,
        vb: &VarPath,
        quant: Option<GgmlDType>,
        rot: usize,
        language_model: bool,
        sources: &Vec<ExpertSource>,
    ) -> (r: Result<Model, Error>)
        requires
            cfg.valid(),
            rot <= cfg.head_dim_spec(),
            sources.len() == cfg.num_hidden_layers,
        ensures
            final(l).grew(*old(l)),
            r is Ok ==> final(l).added(*old(l), Self::tensors(*cfg, quant)),
            Self::refused(*cfg, quant, sources@, cfg.num_hidden_layers as int) ==> r == Err::<
                Model,
                Error,
            >(Error::NotBlockAligned),
            !Self::refused(*cfg, quant, sources@, cfg.num_hidden_layers as int) ==> {
                &&& r is Ok
                &&& r->Ok_0.wf()
                &&& r->Ok_0.asked(*final(l), *cfg, vb@, quant, rot, language_model, sources@)
                &&& r->Ok_0.fresh()
            },
    {
        let root = if language_model {
            vb.pp("model").pp("language_model")
        } else {
            vb.pp("model")
        };
        let (h, vocab) = (cfg.hidden_size, cfg.vocab_size);
        let vb_e = root.pp("embed_tokens");
        let embed_tokens = l.get(&vb_e, "weight", d2(vocab, h));
        let rotary = Rotary::new(l, cfg, rot);
        let mut layers: Vec<DecoderLayer> = Vec::new();
        let mut states: Vec<MixState> = Vec::new();
        let vb_l = root.pp("layers");
        let mut i: usize = 0;
        let ghost rooted = *l;
        while i < cfg.num_hidden_layers
            invariant
                i <= cfg.num_hidden_layers,
                cfg.valid(),
                rotary.rot <= cfg.head_dim_spec(),
                sources.len() == cfg.num_hidden_layers,
                l.grew(rooted),
                l.grew(*old(l)),
                l.added(rooted, Self::layer_tensors(*cfg, i as int)),
                layers.len() == i,
                states.len() == i,
                !Self::refused(*cfg, quant, sources@, i as int),
                forall|j: int| 0 <= j < i ==> (#[trigger] layers[j]).wf(rotary),
                forall|j: int| 0 <= j < i ==> layers[j].mixer.suits(#[trigger] states[j]),
                forall|j: int| 0 <= j < i ==> #[trigger] states[j] == layers[j].mixer.blank(),
                forall|j: int|
                    0 <= j < i ==> (#[trigger] layers[j]).asked(
                        *l,
                        *cfg,
                        j,
                        pp(vb_l@, decimal(j as nat)),
                        quant,
                        sources[j],
                    ),
            decreases cfg.num_hidden_layers - i,
        {
            let ghost before = *l;
            let (layer, own) = DecoderLayer::new(
                l,
                cfg,
                i,
                &vb_l.pp_index(i),
                quant,
                sources[i],
                rotary,
            )?;
            proof {
                assert forall|j: int| 0 <= j < i implies (#[trigger] layers[j]).asked(
                    *l,
                    *cfg,
                    j,
                    pp(vb_l@, decimal(j as nat)),
                    quant,
                    sources[j],
                ) by {
                    lemma_layer_grows(
                        layers[j],
                        before,
                        *l,
                        *cfg,
                        j,
                        pp(vb_l@, decimal(j as nat)),
                        quant,
                        sources[j],
                    );
                }
            }
            layers.push(layer);
            states.push(own);
            i += 1;
        }
        let ghost layered = *l;
        let norm = RmsNormPlus1::new(l, h, cfg.rms_norm_eps, &root.pp("norm"));
        let lm_head = if cfg.tie_word_embeddings {
            match quant {
                None => Proj::Plain { weight: embed_tokens, bias: None },
                Some(q) => {
                    let weight = l.get_quantized(
                        &vb_e,
                        "weight",
                        "lm_head.tied".to_owned(),
                        d2(vocab, h),
                        Recipe::CopyOf(embed_tokens.id),
                        quant_dtype_for(h, q),
                    );
                    Proj::Quant { weight, bias: None }
                },
            }
        } else {
            qproj(l, h, vocab, &vb.pp("lm_head"), quant)
        };
        proof {
            assert forall|j: int| 0 <= j < layers.len() implies (#[trigger] layers[j]).asked(
                *l,
                *cfg,
                j,
                pp(vb_l@, decimal(j as nat)),
                quant,
                sources[j],
            ) by {
                lemma_layer_grows(
                    layers[j],
                    layered,
                    *l,
                    *cfg,
                    j,
                    pp(vb_l@, decimal(j as nat)),
                    quant,
                    sources[j],
                );
            }
        }
        Ok(Model { embed_tokens, layers, states, norm, lm_head, rotary, pos: 0, static_ctx: None })
    }

    /// The context of the static path after `enable_static_decode`.
    pub open spec fn ctx_made(self, max_seq: usize, buffers: Seq<Buf>, bufs: Bufs) -> (
        QwenStaticCtx,
        Seq<Buf>,
        Bufs,
    ) {
        match self.static_ctx {
            Some(ctx) => (ctx, buffers, bufs),
            None => {
                let pos = Buf { id: buffers.len() as usize, shape: d1(1), dtype: DType::U32 };
                let mask = Buf {
                    id: (buffers.len() + 1) as usize,
                    shape: d1(max_seq),
                    dtype: DType::F32,
                };
                (
                    QwenStaticCtx { pos, mask, max_seq },
                    buffers.push(pos).push(mask),
                    bufs.insert(
                        pos.id as int,
                        Term::Leaf(Op::Zeros { shape: pos.shape, dtype: pos.dtype }),
                    ).insert(
                        mask.id as int,
                        Term::Leaf(Op::Zeros { shape: mask.shape, dtype: mask.dtype }),
                    ),
                )
            },
        }
    }

    /// The first `n` layers got their static buffers.
    pub open spec fn enabled(
        self,
        states: Seq<MixState>,
        max_seq: usize,
        buffers: Seq<Buf>,
        bufs: Bufs,
        n: int,
    ) -> (Seq<MixState>, Seq<Buf>, Bufs)
        decreases n,
    {
        if n <= 0 {
            (states, buffers, bufs)
        } else {
            let (s, u, b) = self.enabled(states, max_seq, buffers, bufs, n - 1);
            match (self.layers[n - 1].mixer, states[n - 1]) {
                (Mixer::Full(a), MixState::Full(kv)) => {
                    let (kv, u, b) = a.enabled(kv, max_seq, self.embed_tokens.dtype, u, b);
                    (s.update(n - 1, MixState::Full(kv)), u, b)
                },
                (Mixer::Linear(g), MixState::Linear(st)) => {
                    let (st, u, b) = g.enabled(st, u, b);
                    (s.update(n - 1, MixState::Linear(st)), u, b)
                },
                _ => (s, u, b),
            }
        }
    }

    /// Turns the static decode path on: a fixed budget of `max_seq` positions
    /// for the attention layers, address-stable state for the others. A second
    /// call finds everything in place and changes nothing.
    pub fn enable_static_decode(&mut self, t: &mut Tape, max_seq: usize)
        requires
            old(self).wf(),
        ensures
            final(self).wf(),
            final(t).grew(*old(t)),
            ({
                let (ctx, u, b) = old(self).ctx_made(max_seq, old(t).buffers(), old(t).bufs());
                let (s, u, b) = old(self).enabled(
                    old(self).states@,
                    max_seq,
                    u,
                    b,
                    old(self).layers.len() as int,
                );
                &&& *final(self) == (Model {
                    static_ctx: Some(ctx),
                    states: final(self).states,
                    ..*old(self)
                })
                &&& final(self).states@ == s
                &&& final(t).buffers() == u
                &&& final(t).bufs() == b
            }),
    {
        if self.static_ctx.is_none() {
            let pos = t.allocate(d1(1), DType::U32);
            let mask = t.allocate(d1(max_seq), DType::F32);
            self.static_ctx = Some(QwenStaticCtx { pos, mask, max_seq });
        }
        let ghost ctx = self.static_ctx->0;
        let ghost u0 = t.buffers();
        let ghost b0 = t.bufs();
        let dtype = self.embed_tokens.dtype;
        let mut i: usize = 0;
        while i < self.layers.len()
            invariant
                i <= self.layers.len(),
                self.wf(),
                old(self).wf(),
                t.grew(*old(t)),
                dtype == old(self).embed_tokens.dtype,
                *self == (Model { static_ctx: Some(ctx), states: self.states, ..*old(self) }),
                self.states.len() == old(self).states.len(),
                forall|j: int|
                    i <= j < self.states.len() ==> #[trigger] self.states[j] == old(self).states[j],
                (self.states@, t.buffers(), t.bufs()) == old(self).enabled(
                    old(self).states@,
                    max_seq,
                    u0,
                    b0,
                    i as int,
                ),
            decreases self.layers.len() - i,
        {
            let ghost before = self.states@;
            assert(self.layers[i as int].mixer.suits(self.states[i as int]));
            assert(self.layers[i as int].wf(self.rotary));
            let new = match (&self.layers[i].mixer, self.states[i]) {
                (Mixer::Full(a), MixState::Full(kv)) => {
                    let mut kv = kv;
                    a.enable_static(t, &mut kv, max_seq, dtype);
                    MixState::Full(kv)
                },
                (Mixer::Linear(g), MixState::Linear(st)) => {
                    let mut st = st;
                    g.enable_static(t, &mut st);
                    MixState::Linear(st)
                },
                (_, other) => other,
            };
            self.states.set(i, new);
            assert(self.states@ == before.update(i as int, new));
            i += 1;
        }
    }

    /// The state of the first `n` layers moved into the static buffers, with
    /// the length of the last attention cache that holds anything.
    pub open spec fn migrated(
        self,
        device: Device,
        states: Seq<MixState>,
        bufs: Bufs,
        n: int,
    ) -> Result<(Seq<MixState>, Bufs, usize), (Error, Seq<MixState>, Bufs)>
        decreases n,
    {
        if n <= 0 {
            Ok((states, bufs, 0))
        } else {
            match self.migrated(device, states, bufs, n - 1) {
                Err(e) => Err(e),
                Ok((s, b, len)) => match states[n - 1] {
                    MixState::Full(kv) => match FullAttention::migrated(device, kv, b) {
                        Err(x) => Err((x.error, s, x.bufs)),
                        Ok((m, b)) => Ok((s, b, if m > 0 { m } else { len })),
                    },
                    MixState::Linear(st) => match GatedDeltaNet::migrated(device, st, b) {
                        Err((e, st, b)) => Err((e, s.update(n - 1, MixState::Linear(st)), b)),
                        Ok((st, b)) => Ok((s.update(n - 1, MixState::Linear(st)), b, len)),
                    },
                },
            }
        }
    }

    /// [`Self::migrated`] over all layers, with the position set; or why that
    /// stopped, and how far it got.
    pub open spec fn moved(self, device: Device, bufs: Bufs) -> Result<
        (Seq<MixState>, Bufs, usize),
        (Error, Seq<MixState>, Bufs),
    > {
        match self.migrated(device, self.states@, bufs, self.states.len() as int) {
            Err(e) => Err(e),
            Ok((s, b, len)) => match self.static_ctx {
                None => Err((Error::StaticNotEnabled, s, b)),
                Some(ctx) => if len >= ctx.max_seq {
                    Err((Error::PrefillTooLong { len, max_seq: ctx.max_seq }, s, b))
                } else {
                    let n = if self.pos > len { self.pos } else { len };
                    match u32_effect(device, b, ctx.pos, n as u32) {
                        Err(e) => Err((e, s, b)),
                        Ok(b) => Ok((s, b, n)),
                    }
                },
            },
        }
    }

    /// After a prefill: moves every layer's state into the address-stable
    /// buffers and sets the position held on the device. Gives the length of the
    /// prefill.
    pub fn migrate_prefill_to_static(&mut self, t: &mut Tape) -> (r: Result<usize, Error>)
        requires
            old(self).wf(),
        ensures
            final(self).wf(),
            final(self).same_but_states(*old(self)),
            final(self).pos == old(self).pos,
            final(t).wrote(*old(t)),
            match old(self).moved(old(t).on(), old(t).bufs()) {
                Err((e, s, b)) => {
                    &&& r == Err::<usize, Error>(e)
                    &&& final(self).states@ == s
                    &&& final(t).bufs() == b
                },
                Ok((s, b, n)) => {
                    &&& r == Ok::<usize, Error>(n)
                    &&& final(self).states@ == s
                    &&& final(t).bufs() == b
                },
            },
    {
        let ghost device = t.on();
        let ghost b0 = t.bufs();
        let ghost total = self.states.len() as int;
        let ghost want = old(self).migrated(device, old(self).states@, b0, total);
        let mut len: usize = 0;
        let mut i: usize = 0;
        while i < self.layers.len()
            invariant
                i <= self.layers.len(),
                self.wf(),
                old(self).wf(),
                self.same_but_states(*old(self)),
                self.pos == old(self).pos,
                t.wrote(*old(t)),
                device == t.on(),
                device == old(t).on(),
                b0 == old(t).bufs(),
                total == self.states.len(),
                want == old(self).migrated(device, old(self).states@, b0, total),
                forall|j: int|
                    i <= j < self.states.len() ==> #[trigger] self.states[j] == old(self).states[j],
                old(self).migrated(device, old(self).states@, b0, i as int) == Ok::<
                    (Seq<MixState>, Bufs, usize),
                    (Error, Seq<MixState>, Bufs),
                >((self.states@, t.bufs(), len)),
            decreases self.layers.len() - i,
        {
            let ghost before = self.states@;
            assert(self.layers[i as int].mixer.suits(self.states[i as int]));
            assert(self.layers[i as int].wf(self.rotary));
            proof {
                lemma_migration_stops(
                    *old(self),
                    device,
                    old(self).states@,
                    b0,
                    i as int + 1,
                    total,
                );
            }
            match (&self.layers[i].mixer, self.states[i]) {
                (Mixer::Full(_), MixState::Full(kv)) => {
                    let m: usize = FullAttention::migrate_kv_to_static(t, &kv)?;
                    if m > 0 {
                        len = m;
                    }
                },
                (Mixer::Linear(g), MixState::Linear(st)) => {
                    let mut st = st;
                    let moved = g.migrate_state_to_static(t, &mut st);
                    self.states.set(i, MixState::Linear(st));
                    assert(self.states@ == before.update(i as int, MixState::Linear(st)));
                    moved?;
                },
                _ => {},
            }
            i += 1;
        }
        let ctx = match self.static_ctx {
            None => {
                return Err(Error::StaticNotEnabled);
            },
            Some(ctx) => ctx,
        };
        if len >= ctx.max_seq {
            return Err(Error::PrefillTooLong { len, max_seq: ctx.max_seq });
        }
        let n: usize = if self.pos > len { self.pos } else { len };
        write_u32(t, ctx.pos, n as u32)?;
        Ok(n)
    }
}

/// The first layer that cannot be wiped decides.
proof fn lemma_wiping_stops(device: Device, states: Seq<MixState>, bufs: Bufs, i: int, n: int)
    requires
        i <= n,
    ensures
        Model::wiped(device, states, bufs, i) is Err ==> Model::wiped(device, states, bufs, n)
            == Model::wiped(device, states, bufs, i),
    decreases n - i,
{
    if i < n {
        lemma_wiping_stops(device, states, bufs, i, n - 1);
    }
}

/// The first layer that cannot be moved decides.
proof fn lemma_migration_stops(
    m: Model,
    device: Device,
    states: Seq<MixState>,
    bufs: Bufs,
    i: int,
    n: int,
)
    requires
        i <= n,
    ensures
        m.migrated(device, states, bufs, i) is Err ==> m.migrated(device, states, bufs, n)
            == m.migrated(device, states, bufs, i),
    decreases n - i,
{
    if i < n {
        lemma_migration_stops(m, device, states, bufs, i, n - 1);
    }
}

/// State that has been forgotten.
pub open spec fn cleared(s: MixState) -> MixState {
    match s {
        MixState::Full(kv) => MixState::Full(
            FullKv {
                cache: CatCache { bufs: kv.cache.bufs, filled: false },
                statics: kv.statics,
            },
        ),
        MixState::Linear(g) => MixState::Linear(
            GdnState {
                conv: Slot { live: Live::Empty, ..g.conv },
                s: Slot { live: Live::Empty, ..g.s },
            },
        ),
    }
}

pub open spec fn cleared_states(states: Seq<MixState>) -> Seq<MixState> {
    Seq::new(states.len(), |i: int| cleared(states[i]))
}

/// Clearing makes no mask larger.
proof fn lemma_fits_cleared(before: Model, after: Model, seq: usize)
    requires
        after.same_but_states(before),
        before.wf(),
        before.fits(before.states@, Mode::Pass { pos: before.pos }, seq, 0),
        after.states@ == before.states@ || after.states@ == cleared_states(before.states@),
    ensures
        after.fits(after.states@, Mode::Pass { pos: after.pos }, seq, 0),
{
    assert forall|j: int| 0 <= j < after.layers.len() implies after.layers[j].mixer.fits(
        #[trigger] after.states@[j],
        Mode::Pass { pos: after.pos },
        seq,
    ) by {
        let s = before.states@[j];
        assert(before.layers[j].mixer.fits(s, Mode::Pass { pos: before.pos }, seq));
        if let MixState::Full(kv) = s {
            let n = kv.cache.len() as int;
            assert(seq * (0 + seq) <= seq * (n + seq)) by (nonlinear_arith)
                requires
                    n >= 0,
            ;
        }
    }
}

/// A job depends on the layers, the head and the rotary tables only.
pub proof fn lemma_same_drive(
    a: Model,
    b: Model,
    device: Device,
    task: Task,
    mode: Mode,
    i: int,
    f: Flow,
)
    requires
        a.same_but_states(b),
    ensures
        a.drive(device, task, mode, i, f) == b.drive(device, task, mode, i, f),
{
    lemma_same_run(a, b, device, mode, i, f);
}

proof fn lemma_same_run(a: Model, b: Model, device: Device, mode: Mode, i: int, f: Flow)
    requires
        a.layers == b.layers,
        a.rotary == b.rotary,
    ensures
        a.run(device, mode, i, f) == b.run(device, mode, i, f),
    decreases a.layers.len() - i,
{
    if 0 <= i < a.layers.len() {
        let layer = a.layers[i];
        if let Ok(h) = layer.halfway(
            device,
            mode,
            a.rotary,
            f.x,
            f.states[i],
            f.buffers,
            f.bufs,
        ) {
            if !layer.host_routed() {
                lemma_same_run(
                    a,
                    b,
                    device,
                    mode,
                    i + 1,
                    Flow {
                        x: layer.finished(h.x, h.normed, h.probs, Seq::empty()),
                        bufs: h.bufs,
                        buffers: h.buffers,
                        states: f.states.update(i, h.state),
                    },
                );
            }
        }
    }
}

} // verus!
