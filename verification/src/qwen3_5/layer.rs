use vstd::prelude::*;

use crate::dtype::Device;
use crate::error::Error;
use crate::kv_cache::CatCache;
use crate::loader::{pp, Loader, VarPath};
use crate::quant::GgmlDType;
use crate::qwen3_5::attention::{FullAttention, FullKv};
use crate::qwen3_5::config::Qwen35TextConfig;
use crate::qwen3_5::delta::{GatedDeltaNet, GdnState, Slot};
use crate::qwen3_5::ffn::{lemma_expert_grows, ExpertSource, Ffn, Mlp, SparseMoe};
use crate::qwen3_5::norm::{RmsNormPlus1, Rotary};
use crate::tape::{bin, opt_val, plan_view, un, Buf, Bufs, Op, RoutingPlan, Tape, Tensor, Val};

verus! {

/// Device-resident state of the shape-static decode path.
#[derive(Clone, Copy, PartialEq, Eq, Structural, Debug)]
pub struct QwenStaticCtx {
    /// `u32 [1]`
    pub pos: Buf,
    /// `f32 [max_seq]`
    pub mask: Buf,
    pub max_seq: usize,
}

/// How a pass reaches earlier positions.
#[derive(Clone, Copy, PartialEq, Eq, Structural, Debug)]
pub enum Mode {
    /// Growing caches, from position `pos` on.
    Pass { pos: usize },
    /// Preallocated buffers, one token at the position held on the device.
    Step { ctx: QwenStaticCtx },
}

#[derive(Clone, Copy, PartialEq, Eq, Structural, Debug)]
pub enum Mixer {
    Full(FullAttention),
    Linear(GatedDeltaNet),
}

/// What a layer keeps between passes.
#[derive(Clone, Copy, PartialEq, Eq, Structural, Debug)]
pub enum MixState {
    Full(FullKv),
    Linear(GdnState),
}

/// Output of a mixer and what it leaves behind.
pub struct MixOut {
    pub out: Val,
    pub bufs: Bufs,
    pub buffers: Seq<Buf>,
    pub state: MixState,
}

/// Why a mixer stopped, and what it leaves behind.
pub struct MixStop {
    pub error: Error,
    pub bufs: Bufs,
    pub buffers: Seq<Buf>,
    pub state: MixState,
}

impl Mixer {
    pub open spec fn wf(self, rotary: Rotary) -> bool {
        match self {
            Mixer::Full(a) => a.wf() && rotary.rot <= a.head_dim,
            Mixer::Linear(g) => g.wf(),
        }
    }

    #[verifier::opaque]
    pub open spec fn asked(
        self,
        l: Loader,
        cfg: Qwen35TextConfig,
        layer: int,
        vb: Seq<char>,
        quant: Option<GgmlDType>,
    ) -> bool {
        match self {
            Mixer::Linear(g) => cfg.linear(layer) && g.asked(
                l,
                cfg,
                pp(vb, "linear_attn"@),
                quant,
            ),
            Mixer::Full(a) => !cfg.linear(layer) && a.asked(l, cfg, pp(vb, "self_attn"@), quant),
        }
    }

    fn new(
        l: &mut Loader,
        cfg: &Qwen35TextConfig,
        layer: usize,
        vb: &VarPath,
        quant: Option<GgmlDType>,
        rotary: Rotary,
    ) -> (r: Mixer)
        requires
            cfg.valid(),
            rotary.rot <= cfg.head_dim_spec(),
        ensures
            final(l).grew(*old(l)),
            final(l).added(*old(l), if cfg.linear(layer as int) { 9 } else { 6 }),
            r.asked(*final(l), *cfg, layer as int, vb@, quant),
            r.wf(rotary),
    {
        reveal(Mixer::asked);
        if cfg.is_linear(layer) {
            Mixer::Linear(GatedDeltaNet::new(l, cfg, &vb.pp("linear_attn"), quant))
        } else {
            Mixer::Full(FullAttention::new(l, cfg, &vb.pp("self_attn"), quant))
        }
    }

    /// The state is of the mixer's kind and shapes.
    pub open spec fn suits(self, s: MixState) -> bool {
        match (self, s) {
            (Mixer::Full(a), MixState::Full(kv)) => kv.cache.wf(),
            (Mixer::Linear(g), MixState::Linear(state)) => g.state_ok(state),
            _ => false,
        }
    }

    /// The mask of a pass over `seq` positions can be written down.
    pub open spec fn fits(self, s: MixState, mode: Mode, seq: usize) -> bool {
        mode is Pass ==> (s matches MixState::Full(kv) ==> FullAttention::mask_fits(kv, seq))
    }

    /// State of a mixer that has seen nothing.
    pub open spec fn blank(self) -> MixState {
        match self {
            Mixer::Full(_) => MixState::Full(FullKv { cache: CatCache::new(), statics: None }),
            Mixer::Linear(_) => MixState::Linear(GdnState { conv: Slot::new(), s: Slot::new() }),
        }
    }

    fn blank_state(&self) -> (r: MixState)
        ensures
            r == self.blank(),
            self.suits(r),
    {
        match self {
            Mixer::Full(_) => MixState::Full(FullKv { cache: CatCache::new(), statics: None }),
            Mixer::Linear(_) => MixState::Linear(GdnState { conv: Slot::new(), s: Slot::new() }),
        }
    }

    pub open spec fn mixed(
        self,
        device: Device,
        mode: Mode,
        rotary: Rotary,
        x: Val,
        state: MixState,
        buffers: Seq<Buf>,
        bufs: Bufs,
    ) -> Result<MixOut, MixStop> {
        match (self, state) {
            (Mixer::Full(a), MixState::Full(kv)) => {
                let r = match mode {
                    Mode::Pass { pos } => a.pass(x, rotary, pos, kv, buffers, bufs),
                    Mode::Step { ctx } => a.step_pass(
                        device,
                        x,
                        rotary,
                        ctx.pos,
                        ctx.mask,
                        kv,
                        buffers,
                        bufs,
                    ),
                };
                match r {
                    Err(x) => Err(
                        MixStop {
                            error: x.error,
                            bufs: x.bufs,
                            buffers: x.buffers,
                            state: MixState::Full(x.kv),
                        },
                    ),
                    Ok(o) => Ok(
                        MixOut {
                            out: o.out,
                            bufs: o.bufs,
                            buffers: o.buffers,
                            state: MixState::Full(o.kv),
                        },
                    ),
                }
            },
            (Mixer::Linear(g), MixState::Linear(s)) => {
                let r = match mode {
                    Mode::Pass { pos } => g.pass(device, x, s, buffers, bufs),
                    Mode::Step { ctx } => g.step_pass(device, x, s, buffers, bufs),
                };
                match r {
                    Err(x) => Err(
                        MixStop {
                            error: x.error,
                            bufs: x.bufs,
                            buffers: x.buffers,
                            state: MixState::Linear(x.state),
                        },
                    ),
                    Ok(o) => Ok(
                        MixOut {
                            out: o.out,
                            bufs: o.bufs,
                            buffers: o.buffers,
                            state: MixState::Linear(o.state),
                        },
                    ),
                }
            },
            _ => Err(MixStop { error: Error::StaticNotEnabled, bufs, buffers, state }),
        }
    }

    fn forward(
        &self,
        t: &mut Tape,
        state: &mut MixState,
        x: Tensor,
        rotary: &Rotary,
        mode: Mode,
    ) -> (r: Result<Tensor, Error>)
        requires
            self.wf(*rotary),
            self.suits(*old(state)),
            self.fits(*old(state), mode, x.shape.d1),
            old(t).has(x),
        ensures
            final(t).grew(*old(t)),
            self.suits(*final(state)),
            match self.mixed(
                old(t).on(),
                mode,
                *rotary,
                x@,
                *old(state),
                old(t).buffers(),
                old(t).bufs(),
            ) {
                Err(x) => {
                    &&& r == Err::<Tensor, Error>(x.error)
                    &&& final(t).bufs() == x.bufs
                    &&& final(t).buffers() == x.buffers
                    &&& *final(state) == x.state
                },
                Ok(o) => {
                    &&& r is Ok
                    &&& final(t).has(r->Ok_0)
                    &&& r->Ok_0@ == o.out
                    &&& final(t).bufs() == o.bufs
                    &&& final(t).buffers() == o.buffers
                    &&& *final(state) == o.state
                },
            },
    {
        match (self, *state) {
            (Mixer::Full(a), MixState::Full(kv)) => {
                let mut kv = kv;
                let r = match mode {
                    Mode::Pass { pos } => a.forward(t, &mut kv, x, rotary, pos),
                    Mode::Step { ctx } => a.forward_static(t, &kv, x, rotary, ctx.pos, ctx.mask),
                };
                *state = MixState::Full(kv);
                r
            },
            (Mixer::Linear(g), MixState::Linear(s)) => {
                let mut s = s;
                let r = match mode {
                    Mode::Pass { pos } => g.forward_step(t, &mut s, x),
                    Mode::Step { ctx } => g.forward_static_step(t, &s, x),
                };
                *state = MixState::Linear(s);
                r
            },
            _ => Err(Error::StaticNotEnabled),
        }
    }
}

#[derive(Debug)]
pub struct DecoderLayer {
    pub mixer: Mixer,
    pub ffn: Ffn,
    pub input_layernorm: RmsNormPlus1,
    pub post_attention_layernorm: RmsNormPlus1,
}

/// A layer up to the point where experts are chosen.
#[derive(Clone, Copy)]
pub struct Halfway {
    pub x: Tensor,
    pub normed: Tensor,
    /// Router probabilities, where the host has to choose.
    pub probs: Option<Tensor>,
}

/// [`Halfway`] as values, with the state it leaves.
pub struct HalfwayOut {
    pub x: Val,
    pub normed: Val,
    pub probs: Option<Val>,
    pub bufs: Bufs,
    pub buffers: Seq<Buf>,
    pub state: MixState,
}

impl Halfway {
    pub open spec fn on(self, t: Tape) -> bool {
        t.has(self.x) && t.has(self.normed) && t.has_opt(self.probs)
    }
}

impl DecoderLayer {
    pub open spec fn wf(self, rotary: Rotary) -> bool {
        self.mixer.wf(rotary) && (self.ffn matches Ffn::Moe(m) ==> m.wf())
    }

    /// The host chooses the experts of this layer.
    pub open spec fn host_routed(self) -> bool {
        self.ffn is Moe
    }

    pub open spec fn asked(
        self,
        l: Loader,
        cfg: Qwen35TextConfig,
        layer: int,
        vb: Seq<char>,
        quant: Option<GgmlDType>,
        source: ExpertSource,
    ) -> bool {
        let (h, eps) = (cfg.hidden_size, cfg.rms_norm_eps);
        &&& self.mixer.asked(l, cfg, layer, vb, quant)
        &&& self.ffn_asked(l, cfg, vb, quant, source)
        &&& self.input_layernorm.asked(l, h, eps, pp(vb, "input_layernorm"@))
        &&& self.post_attention_layernorm.asked(l, h, eps, pp(vb, "post_attention_layernorm"@))
    }

    #[verifier::opaque]
    pub open spec fn ffn_asked(
        self,
        l: Loader,
        cfg: Qwen35TextConfig,
        vb: Seq<char>,
        quant: Option<GgmlDType>,
        source: ExpertSource,
    ) -> bool {
        match self.ffn {
            Ffn::Moe(m) => cfg.experts() > 0 && m.asked(l, cfg, pp(vb, "mlp"@), quant, source),
            Ffn::Dense(m) => cfg.experts() == 0 && m.asked(
                l,
                cfg.hidden_size,
                cfg.intermediate_size->0,
                pp(vb, "mlp"@),
                quant,
            ),
        }
    }

    /// How many tensors a layer is.
    pub open spec fn tensors(cfg: Qwen35TextConfig, layer: int) -> int {
        let mixer: int = if cfg.linear(layer) { 9 } else { 6 };
        let ffn = if cfg.experts() > 0 { SparseMoe::tensors(cfg) } else { 3 };
        mixer + ffn + 2
    }

    /// Stacked experts of this layer are refused.
    pub open spec fn refused(
        cfg: Qwen35TextConfig,
        quant: Option<GgmlDType>,
        source: ExpertSource,
    ) -> bool {
        cfg.experts() > 0 && SparseMoe::refused(cfg, quant, source)
    }

    pub fn new(
        l: &mut Loader,
        cfg: &Qwen35TextConfig,
        layer: usize,
        vb: &VarPath,
        quant: Option<GgmlDType>,
        source: ExpertSource,
        rotary: Rotary,
    ) -> (r: Result<(DecoderLayer, MixState), Error>)
        requires
            cfg.valid(),
            rotary.rot <= cfg.head_dim_spec(),
        ensures
            final(l).grew(*old(l)),
            r is Ok ==> final(l).added(*old(l), Self::tensors(*cfg, layer as int)),
            Self::refused(*cfg, quant, source) ==> r == Err::<(DecoderLayer, MixState), Error>(
                Error::NotBlockAligned,
            ),
            !Self::refused(*cfg, quant, source) ==> {
                &&& r is Ok
                &&& r->Ok_0.0.asked(*final(l), *cfg, layer as int, vb@, quant, source)
                &&& r->Ok_0.0.wf(rotary)
                &&& r->Ok_0.0.mixer.suits(r->Ok_0.1)
                &&& r->Ok_0.1 == r->Ok_0.0.mixer.blank()
            },
    {
        let mixer = Mixer::new(l, cfg, layer, vb, quant, rotary);
        let ghost l1 = *l;
        let ffn = if cfg.expert_count() > 0 {
            Ffn::Moe(SparseMoe::new(l, cfg, &vb.pp("mlp"), quant, source)?)
        } else {
            let inter: usize = cfg.intermediate_size.unwrap();
            Ffn::Dense(Mlp::new(l, cfg.hidden_size, inter, &vb.pp("mlp"), quant))
        };
        let ghost l2 = *l;
        let (h, eps) = (cfg.hidden_size, cfg.rms_norm_eps);
        let input_layernorm = RmsNormPlus1::new(l, h, eps, &vb.pp("input_layernorm"));
        let post_attention_layernorm = RmsNormPlus1::new(
            l,
            h,
            eps,
            &vb.pp("post_attention_layernorm"),
        );
        let state = mixer.blank_state();
        let made = DecoderLayer { mixer, ffn, input_layernorm, post_attention_layernorm };
        proof {
            lemma_mixer_grows(mixer, l1, *l, *cfg, layer as int, vb@, quant);
            assert(made.ffn_asked(l2, *cfg, vb@, quant, source)) by {
                reveal(DecoderLayer::ffn_asked);
            }
            lemma_ffn_grows(made, l2, *l, *cfg, vb@, quant, source);
        }
        Ok((made, state))
    }

    /// The layer on `x` up to the choice of experts.
    #[verifier::opaque]
    pub open spec fn halfway(
        self,
        device: Device,
        mode: Mode,
        rotary: Rotary,
        x: Val,
        state: MixState,
        buffers: Seq<Buf>,
        bufs: Bufs,
    ) -> Result<HalfwayOut, MixStop> {
        match self.mixer.mixed(
            device,
            mode,
            rotary,
            self.input_layernorm.apply(x),
            state,
            buffers,
            bufs,
        ) {
            Err(x) => Err(x),
            Ok(m) => {
                let x = bin(Op::Add, x, m.out);
                let normed = self.post_attention_layernorm.apply(x);
                let probs = match self.ffn {
                    Ffn::Dense(_) => None,
                    Ffn::Moe(moe) => Some(moe.probs(normed)),
                };
                if probs is Some && normed.shape.rank != 3 {
                    Err(
                        MixStop {
                            error: Error::UnexpectedRank { expected: 3, got: normed.shape.rank },
                            bufs: m.bufs,
                            buffers: m.buffers,
                            state: m.state,
                        },
                    )
                } else {
                    Ok(
                        HalfwayOut {
                            x,
                            normed,
                            probs,
                            bufs: m.bufs,
                            buffers: m.buffers,
                            state: m.state,
                        },
                    )
                }
            },
        }
    }

    /// Records the layer up to the choice of experts.
    pub fn begin(
        &self,
        t: &mut Tape,
        state: &mut MixState,
        x: Tensor,
        rotary: &Rotary,
        mode: Mode,
    ) -> (r: Result<Halfway, Error>)
        requires
            self.wf(*rotary),
            self.mixer.suits(*old(state)),
            self.mixer.fits(*old(state), mode, x.shape.d1),
            old(t).has(x),
        ensures
            final(t).grew(*old(t)),
            self.mixer.suits(*final(state)),
            match self.halfway(
                old(t).on(),
                mode,
                *rotary,
                x@,
                *old(state),
                old(t).buffers(),
                old(t).bufs(),
            ) {
                Err(x) => {
                    &&& r == Err::<Halfway, Error>(x.error)
                    &&& final(t).bufs() == x.bufs
                    &&& final(t).buffers() == x.buffers
                    &&& *final(state) == x.state
                },
                Ok(o) => {
                    &&& r is Ok
                    &&& r->Ok_0.on(*final(t))
                    &&& r->Ok_0.x@ == o.x
                    &&& r->Ok_0.normed@ == o.normed
                    &&& opt_val(r->Ok_0.probs) == o.probs
                    &&& r->Ok_0.probs is Some <==> self.host_routed()
                    &&& r->Ok_0.x.shape == x.shape
                    &&& final(t).bufs() == o.bufs
                    &&& final(t).buffers() == o.buffers
                    &&& *final(state) == o.state
                },
            },
    {
        reveal(DecoderLayer::halfway);
        let normed = self.input_layernorm.forward(t, x);
        assert(normed@.shape == x@.shape) by {
            lemma_norm_shape(self.input_layernorm, x@);
        }
        let mixed = self.mixer.forward(t, state, normed, rotary, mode)?;
        let y = t.bin(Op::Add, x, mixed);
        assert(y@.shape == x@.shape) by {
            reveal(bin);
        }
        let normed = self.post_attention_layernorm.forward(t, y);
        let probs = match &self.ffn {
            Ffn::Dense(_) => None,
            Ffn::Moe(moe) => Some(moe.probabilities(t, normed)?),
        };
        Ok(Halfway { x: y, normed, probs })
    }

    /// The rest of the layer, with the experts in `plan` where the host chose.
    pub open spec fn finished(
        self,
        x: Val,
        normed: Val,
        probs: Option<Val>,
        plan: Seq<Seq<usize>>,
    ) -> Val {
        bin(
            Op::Add,
            x,
            match self.ffn {
                Ffn::Dense(m) => m.apply(normed),
                Ffn::Moe(moe) => moe.out(normed, probs->0, plan),
            },
        )
    }

    /// Records the rest of the layer.
    pub fn finish(&self, t: &mut Tape, half: Halfway, plan: RoutingPlan) -> (r: Result<
        Tensor,
        Error,
    >)
        requires
            half.on(*old(t)),
            self.ffn matches Ffn::Moe(m) ==> m.wf() && half.probs is Some && m.plan_ok(
                plan_view(plan),
            ),
        ensures
            final(t).computed(*old(t)),
            self.host_routed() && half.normed.shape.rank != 3 ==> r == Err::<Tensor, Error>(
                Error::UnexpectedRank { expected: 3, got: half.normed.shape.rank },
            ),
            !(self.host_routed() && half.normed.shape.rank != 3) ==> {
                &&& r is Ok
                &&& final(t).has(r->Ok_0)
                &&& r->Ok_0@ == self.finished(
                    half.x@,
                    half.normed@,
                    opt_val(half.probs),
                    plan_view(plan),
                )
                &&& r->Ok_0.shape == half.x.shape
            },
    {
        let f = match &self.ffn {
            Ffn::Dense(m) => m.forward(t, half.normed),
            Ffn::Moe(moe) => moe.forward(t, half.normed, half.probs.unwrap(), plan)?,
        };
        let y = t.bin(Op::Add, half.x, f);
        assert(y@.shape == half.x@.shape) by {
            reveal(bin);
        }
        Ok(y)
    }
}

proof fn lemma_mixer_grows(
    m: Mixer,
    before: Loader,
    l: Loader,
    cfg: Qwen35TextConfig,
    layer: int,
    vb: Seq<char>,
    quant: Option<GgmlDType>,
)
    requires
        m.asked(before, cfg, layer, vb, quant),
        l.grew(before),
    ensures
        m.asked(l, cfg, layer, vb, quant),
{
    reveal(Mixer::asked);
}

proof fn lemma_ffn_grows(
    d: DecoderLayer,
    before: Loader,
    l: Loader,
    cfg: Qwen35TextConfig,
    vb: Seq<char>,
    quant: Option<GgmlDType>,
    source: ExpertSource,
)
    requires
        d.ffn_asked(before, cfg, vb, quant, source),
        l.grew(before),
    ensures
        d.ffn_asked(l, cfg, vb, quant, source),
{
    reveal(DecoderLayer::ffn_asked);
    if let Ffn::Moe(m) = d.ffn {
        let name = pp(vb, "mlp"@);
        assert forall|i: int| 0 <= i < m.experts.len() implies SparseMoe::expert_asked(
            #[trigger] m.experts[i],
            l,
            cfg,
            i,
            name,
            quant,
            source,
        ) by {
            lemma_expert_grows(m.experts[i], before, l, cfg, i, name, quant, source);
        }
    }
}

/// What was asked for stays asked for.
pub proof fn lemma_layer_grows(
    d: DecoderLayer,
    before: Loader,
    l: Loader,
    cfg: Qwen35TextConfig,
    layer: int,
    vb: Seq<char>,
    quant: Option<GgmlDType>,
    source: ExpertSource,
)
    requires
        d.asked(before, cfg, layer, vb, quant, source),
        l.grew(before),
    ensures
        d.asked(l, cfg, layer, vb, quant, source),
{
    lemma_mixer_grows(d.mixer, before, l, cfg, layer, vb, quant);
    lemma_ffn_grows(d, before, l, cfg, vb, quant, source);
}

/// A norm keeps the shape of what it normalizes.
pub proof fn lemma_norm_shape(n: RmsNormPlus1, x: Val)
    ensures
        n.apply(x).shape == x.shape,
{
    reveal(un);
    reveal(bin);
}

} // verus!
