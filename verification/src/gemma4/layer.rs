use vstd::prelude::*;

use crate::dtype::{Activation, Device};
use crate::error::Error;
use crate::fused::{fused_add_rmsnorm, residual_norm, residual_sum};
use crate::gemma4::attention::{AttnOut, Attention, Stop};
use crate::gemma4::config::Gemma4TextConfig;
use crate::gemma4::context::{LayerKv, Shared, SharedKvStates, StaticCtx};
use crate::gemma4::moe::{Experts, Mlp, MoeBlock};
use crate::gemma4::norm::{RmsNorm, RotaryEmbedding};
use crate::kv_cache::KvCache;
use crate::loader::{fitted, pp, Loader, Proj, VarPath};
use crate::quant::GgmlDType;
use crate::routing::plan_within;
use crate::tape::{
    bin, opt_val, plan_view, un, Buf, Bufs, Op, RoutingPlan, Scalar, Tape, Tensor, Val,
};

verus! {

/// Bits of the number one in double precision.
pub const ONE: u64 = 0x3ff0_0000_0000_0000;

/// How a pass reaches the keys and values of earlier positions.
#[derive(Clone, Copy)]
pub enum Mode {
    /// Growing caches, after `offset` positions.
    Dynamic { mask: Option<Tensor>, sliding_mask: Option<Tensor>, offset: usize },
    /// Preallocated buffers, a chunk at a position known to the host.
    Chunk { ctx: StaticCtx, pos: usize },
    /// Preallocated buffers, a chunk at the position held on the device.
    ChunkDev { ctx: StaticCtx },
    /// Preallocated buffers, one token at the position held on the device.
    Step { ctx: StaticCtx },
}

/// [`Mode`] as values.
pub enum ModeVal {
    Dynamic(Option<Val>, Option<Val>, usize),
    Chunk(StaticCtx, usize),
    ChunkDev(StaticCtx),
    Step(StaticCtx),
}

impl View for Mode {
    type V = ModeVal;

    open spec fn view(&self) -> ModeVal {
        match *self {
            Mode::Dynamic { mask, sliding_mask, offset } => ModeVal::Dynamic(
                opt_val(mask),
                opt_val(sliding_mask),
                offset,
            ),
            Mode::Chunk { ctx, pos } => ModeVal::Chunk(ctx, pos),
            Mode::ChunkDev { ctx } => ModeVal::ChunkDev(ctx),
            Mode::Step { ctx } => ModeVal::Step(ctx),
        }
    }
}

impl Mode {
    /// The masks are values of `t`.
    pub open spec fn on(self, t: Tape) -> bool {
        self matches Mode::Dynamic { mask, sliding_mask, offset } ==> t.has_opt(mask) && t.has_opt(
            sliding_mask,
        )
    }

    /// The mask over a chunk of `len` positions can be written down.
    pub open spec fn fits(self, len: usize) -> bool {
        self is Chunk ==> len * len <= usize::MAX
    }
}

/// Gate and projection of the per-layer input.
#[derive(Clone, Copy, PartialEq, Eq, Structural, Debug)]
pub struct PerLayerInput {
    pub gate: Proj,
    pub projection: Proj,
    pub norm: RmsNorm,
}

#[derive(Debug)]
pub struct DecoderLayer {
    pub self_attn: Attention,
    pub mlp: Mlp,
    pub input_layernorm: RmsNorm,
    pub post_attention_layernorm: RmsNorm,
    pub pre_feedforward_layernorm: RmsNorm,
    pub post_feedforward_layernorm: RmsNorm,
    pub per_layer: Option<PerLayerInput>,
    pub moe: Option<MoeBlock>,
    pub act_fn: Activation,
    /// Learned factor of the layer's output, by its bits.
    pub layer_scalar: u64,
}

/// A layer up to the point where experts are chosen.
#[derive(Clone, Copy)]
pub struct Halfway {
    pub residual: Tensor,
    pub mlp_out: Tensor,
    /// Router probabilities, where the host has to choose.
    pub probs: Option<Tensor>,
}

/// [`Halfway`] as values, with the state it leaves.
pub struct HalfwayOut {
    pub residual: Val,
    pub mlp_out: Val,
    pub probs: Option<Val>,
    pub bufs: Bufs,
    pub buffers: Seq<Buf>,
    pub kv: LayerKv,
    pub shared: Shared,
}

impl Halfway {
    pub open spec fn on(self, t: Tape) -> bool {
        t.has(self.residual) && t.has(self.mlp_out) && t.has_opt(self.probs)
    }
}

impl DecoderLayer {
    pub open spec fn wf(self) -> bool {
        self.self_attn.wf() && (self.moe matches Some(m) ==> m.wf())
    }

    /// The host chooses the experts of this layer.
    pub open spec fn host_routed(self) -> bool {
        self.moe matches Some(m) && !m.experts.fused()
    }

    pub open spec fn asked(
        self,
        l: Loader,
        cfg: Gemma4TextConfig,
        layer: int,
        vb: Seq<char>,
        quant: Option<GgmlDType>,
        device: Device,
    ) -> bool {
        let (h, eps) = (cfg.hidden_size, cfg.rms_norm_eps);
        let p = cfg.hidden_size_per_layer_input;
        &&& self.self_attn.asked(l, cfg, layer, pp(vb, "self_attn"@), quant)
        &&& self.mlp.asked(
            l,
            h,
            cfg.mlp_width(layer),
            cfg.hidden_activation,
            false,
            pp(vb, "mlp"@),
            quant,
        )
        &&& self.input_layernorm.asked(l, h, eps, pp(vb, "input_layernorm"@))
        &&& self.post_attention_layernorm.asked(l, h, eps, pp(vb, "post_attention_layernorm"@))
        &&& self.pre_feedforward_layernorm.asked(l, h, eps, pp(vb, "pre_feedforward_layernorm"@))
        &&& self.post_feedforward_layernorm.asked(l, h, eps, pp(vb, "post_feedforward_layernorm"@))
        &&& self.per_layer is Some <==> p > 0
        &&& self.per_layer matches Some(i) ==> {
            &&& i.gate.asked(l, h, p, false, pp(vb, "per_layer_input_gate"@), fitted(h, quant))
            &&& i.projection.asked(
                l,
                p,
                h,
                false,
                pp(vb, "per_layer_projection"@),
                fitted(p, quant),
            )
            &&& i.norm.asked(l, h, eps, pp(vb, "post_per_layer_input_norm"@))
        }
        &&& self.moe is Some <==> cfg.enable_moe_block
        &&& self.moe matches Some(m) ==> m.asked(l, cfg, vb, quant, device)
        &&& self.act_fn == cfg.hidden_activation
    }

    /// How many tensors a layer is.
    pub open spec fn tensors(
        cfg: Gemma4TextConfig,
        layer: int,
        quant: Option<GgmlDType>,
        device: Device,
    ) -> int {
        let per_layer: int = if cfg.hidden_size_per_layer_input > 0 { 3 } else { 0 };
        let moe = if cfg.enable_moe_block { 6 + Experts::tensors(cfg, quant, device) } else { 0 };
        Attention::tensors(cfg, layer) + 3 + 4 + per_layer + moe
    }

    /// Asks for the weights of a layer. `layer_scalar` is what the checkpoint
    /// stores under that name, if it does.
    pub fn new(
        l: &mut Loader,
        rotary_emb_global: RotaryEmbedding,
        rotary_emb_local: RotaryEmbedding,
        cfg: &Gemma4TextConfig,
        layer_idx: usize,
        vb: &VarPath,
        quant: Option<GgmlDType>,
        device: Device,
        max_context: Option<usize>,
        layer_scalar: Option<u64>,
    ) -> (r: (DecoderLayer, LayerKv))
        requires
            cfg.valid(),
            layer_idx < cfg.num_hidden_layers,
        ensures
            final(l).grew(*old(l)),
            final(l).added(*old(l), Self::tensors(*cfg, layer_idx as int, quant, device)),
            r.0.asked(*final(l), *cfg, layer_idx as int, vb@, quant, device),
            r.0.wf(),
            r.0.self_attn.rotary_emb_global == rotary_emb_global,
            r.0.self_attn.rotary_emb_local == rotary_emb_local,
            r.0.layer_scalar == (if layer_scalar is Some { layer_scalar->0 } else { ONE }),
            r.1 == (LayerKv {
                cache: KvCache::new(
                    cfg.cache_capacity(layer_idx as int, max_context),
                    cfg.sliding(layer_idx as int),
                ),
                statics: None,
            }),
    {
        let (h, eps) = (cfg.hidden_size, cfg.rms_norm_eps);
        let (self_attn, kv) = Attention::new(
            l,
            rotary_emb_global,
            rotary_emb_local,
            cfg,
            layer_idx,
            &vb.pp("self_attn"),
            quant,
            max_context,
        );
        let mlp = Mlp::new(
            l,
            h,
            cfg.mlp_intermediate_size(layer_idx),
            cfg.hidden_activation,
            false,
            &vb.pp("mlp"),
            quant,
        );
        let input_layernorm = RmsNorm::new(l, h, eps, &vb.pp("input_layernorm"));
        let post_attention_layernorm = RmsNorm::new(l, h, eps, &vb.pp("post_attention_layernorm"));
        let pre_feedforward_layernorm = RmsNorm::new(l, h, eps, &vb.pp("pre_feedforward_layernorm"));
        let post_feedforward_layernorm = RmsNorm::new(
            l,
            h,
            eps,
            &vb.pp("post_feedforward_layernorm"),
        );
        let p: usize = cfg.hidden_size_per_layer_input;
        let per_layer = if p > 0 {
            let gate = Proj::new(l, h, p, false, &vb.pp("per_layer_input_gate"), quant);
            let projection = Proj::new(l, p, h, false, &vb.pp("per_layer_projection"), quant);
            let norm = RmsNorm::new(l, h, eps, &vb.pp("post_per_layer_input_norm"));
            Some(PerLayerInput { gate, projection, norm })
        } else {
            None
        };
        let layer_scalar: u64 = match layer_scalar {
            Some(s) => s,
            None => ONE,
        };
        let moe = if cfg.enable_moe_block {
            Some(MoeBlock::new(l, cfg, vb, quant, device))
        } else {
            None
        };
        let layer = DecoderLayer {
            self_attn,
            mlp,
            input_layernorm,
            post_attention_layernorm,
            pre_feedforward_layernorm,
            post_feedforward_layernorm,
            per_layer,
            moe,
            act_fn: cfg.hidden_activation,
            layer_scalar,
        };
        (layer, kv)
    }

    /// Attention of the normalized input, in one of the four ways.
    pub open spec fn attended(
        self,
        device: Device,
        mode: ModeVal,
        x: Val,
        kv: LayerKv,
        buffers: Seq<Buf>,
        bufs: Bufs,
        shared: Shared,
    ) -> Result<AttnOut, Stop> {
        let a = self.self_attn;
        match mode {
            ModeVal::Dynamic(mask, sliding, offset) => a.pass(
                x,
                mask,
                sliding,
                offset,
                kv,
                buffers,
                bufs,
                shared,
            ),
            ModeVal::Chunk(ctx, pos) => a.chunk_pass(
                device,
                x,
                ctx,
                pos,
                kv,
                buffers,
                bufs,
                shared,
            ),
            ModeVal::ChunkDev(ctx) => a.chunk_dev_pass(device, x, ctx, kv, buffers, bufs, shared),
            ModeVal::Step(ctx) => a.step_pass(device, x, ctx, kv, buffers, bufs, shared),
        }
    }

    /// The layer on `x` up to the choice of experts.
    #[verifier::opaque]
    pub open spec fn halfway(
        self,
        device: Device,
        mode: ModeVal,
        x: Val,
        kv: LayerKv,
        buffers: Seq<Buf>,
        bufs: Bufs,
        shared: Shared,
    ) -> Result<HalfwayOut, Stop> {
        match self.attended(
            device,
            mode,
            self.input_layernorm.apply(x),
            kv,
            buffers,
            bufs,
            shared,
        ) {
            Err(s) => Err(s),
            Ok(a) => {
                let y = self.post_attention_layernorm.apply(a.out);
                let w = self.pre_feedforward_layernorm.weight;
                let eps = Scalar::F32(self.pre_feedforward_layernorm.eps);
                let residual = residual_sum(device, y, x, w, eps, false);
                let mlp_out = self.mlp.apply(residual_norm(device, y, x, w, eps, false));
                if self.host_routed() && residual.shape.rank != 3 {
                    Err(
                        Stop {
                            error: Error::UnexpectedRank { expected: 3, got: residual.shape.rank },
                            bufs: a.bufs,
                            buffers: a.buffers,
                            kv: a.kv,
                            shared: a.shared,
                        },
                    )
                } else {
                    Ok(
                        HalfwayOut {
                            residual,
                            mlp_out,
                            probs: if self.host_routed() {
                                Some(self.moe->0.probs(residual))
                            } else {
                                None
                            },
                            bufs: a.bufs,
                            buffers: a.buffers,
                            kv: a.kv,
                            shared: a.shared,
                        },
                    )
                }
            },
        }
    }

    /// Records the layer up to the choice of experts.
    pub fn begin(
        &self,
        t: &mut Tape,
        kv: &mut LayerKv,
        xs: Tensor,
        mode: Mode,
        shared_kv: &mut SharedKvStates,
    ) -> (r: Result<Halfway, Error>)
        requires
            self.wf(),
            old(t).has(xs),
            mode.on(*old(t)),
            mode.fits(xs.shape.d1),
            old(shared_kv).on(*old(t)),
        ensures
            final(t).grew(*old(t)),
            match self.halfway(
                old(t).on(),
                mode@,
                xs@,
                *old(kv),
                old(t).buffers(),
                old(t).bufs(),
                old(shared_kv)@,
            ) {
                Err(s) => {
                    &&& r == Err::<Halfway, Error>(s.error)
                    &&& final(t).bufs() == s.bufs
                    &&& final(t).buffers() == s.buffers
                    &&& *final(kv) == s.kv
                    &&& final(shared_kv)@ == s.shared
                    &&& final(shared_kv).on(*final(t))
                },
                Ok(o) => {
                    &&& r is Ok
                    &&& r->Ok_0.on(*final(t))
                    &&& r->Ok_0.residual@ == o.residual
                    &&& r->Ok_0.mlp_out@ == o.mlp_out
                    &&& opt_val(r->Ok_0.probs) == o.probs
                    &&& r->Ok_0.probs is Some <==> self.host_routed()
                    &&& final(t).bufs() == o.bufs
                    &&& final(t).buffers() == o.buffers
                    &&& *final(kv) == o.kv
                    &&& final(shared_kv)@ == o.shared
                    &&& final(shared_kv).on(*final(t))
                },
            },
    {
        reveal(DecoderLayer::halfway);
        let residual = xs;
        let xs = self.input_layernorm.forward(t, xs);
        proof {
            lemma_norm_shape(self.input_layernorm, residual@);
        }
        let xs = match mode {
            Mode::Dynamic { mask, sliding_mask, offset } => self.self_attn.forward(
                t,
                kv,
                xs,
                mask,
                sliding_mask,
                offset,
                shared_kv,
            )?,
            Mode::Chunk { ctx, pos } => self.self_attn.forward_static_chunk(
                t,
                kv,
                xs,
                &ctx,
                shared_kv,
                pos,
            )?,
            Mode::ChunkDev { ctx } => self.self_attn.forward_static_chunk_dev(
                t,
                kv,
                xs,
                &ctx,
                shared_kv,
            )?,
            Mode::Step { ctx } => self.self_attn.forward_static(t, kv, xs, &ctx, shared_kv)?,
        };
        let xs = self.post_attention_layernorm.forward(t, xs);
        let (residual, ffw_in) = fused_add_rmsnorm(
            t,
            xs,
            residual,
            self.pre_feedforward_layernorm.weight,
            Scalar::F32(self.pre_feedforward_layernorm.eps),
            false,
        );
        let mlp_out = self.mlp.forward(t, ffw_in);
        let probs = match &self.moe {
            Some(moe) => if moe.is_fused() {
                None
            } else {
                Some(moe.probabilities(t, residual)?)
            },
            None => None,
        };
        Ok(Halfway { residual, mlp_out, probs })
    }

    /// The rest of the layer, with the experts in `plan` where the host chose.
    #[verifier::opaque]
    pub open spec fn finished(
        self,
        device: Device,
        residual: Val,
        mlp_out: Val,
        probs: Option<Val>,
        plan: Seq<Seq<usize>>,
        per_layer_input: Option<Val>,
    ) -> Result<Val, Error> {
        let mixed = match self.moe {
            None => Ok(mlp_out),
            Some(moe) => if moe.experts.fused() {
                moe.fused_out(device, mlp_out, residual)
            } else if residual.shape.rank != 3 {
                Err(Error::UnexpectedRank { expected: 3, got: residual.shape.rank })
            } else {
                Ok(moe.routed_out(mlp_out, residual, probs->0, plan))
            },
        };
        match mixed {
            Err(e) => Err(e),
            Ok(y) => {
                let x = bin(Op::Add, residual, self.post_feedforward_layernorm.apply(y));
                let x = match (self.per_layer, per_layer_input) {
                    (Some(i), Some(pli)) => {
                        let gated = un(Op::Act(self.act_fn), i.gate.apply(x));
                        let mixed = bin(Op::Mul, gated, pli);
                        bin(Op::Add, x, i.norm.apply(i.projection.apply(mixed)))
                    },
                    _ => x,
                };
                if self.layer_scalar != ONE {
                    Ok(un(Op::MulScalar(Scalar::F64(self.layer_scalar)), x))
                } else {
                    Ok(x)
                }
            },
        }
    }

    /// Records the rest of the layer.
    pub fn finish(
        &self,
        t: &mut Tape,
        half: Halfway,
        plan: RoutingPlan,
        per_layer_input: Option<Tensor>,
    ) -> (r: Result<Tensor, Error>)
        requires
            self.wf(),
            half.on(*old(t)),
            old(t).has_opt(per_layer_input),
            self.host_routed() ==> half.probs is Some && plan_within(
                plan_view(plan),
                self.moe->0.experts.num_experts as int,
            ),
        ensures
            final(t).computed(*old(t)),
            match self.finished(
                old(t).on(),
                half.residual@,
                half.mlp_out@,
                opt_val(half.probs),
                plan_view(plan),
                opt_val(per_layer_input),
            ) {
                Err(e) => r == Err::<Tensor, Error>(e),
                Ok(y) => r is Ok && final(t).has(r->Ok_0) && r->Ok_0@ == y,
            },
    {
        reveal(DecoderLayer::finished);
        let Halfway { residual, mlp_out, probs } = half;
        let xs = match &self.moe {
            None => mlp_out,
            Some(moe) => if moe.is_fused() {
                moe.forward_fused(t, mlp_out, residual)?
            } else {
                moe.forward_routed(t, mlp_out, residual, probs.unwrap(), plan)?
            },
        };
        let xs = self.post_feedforward_layernorm.forward(t, xs);
        let mut xs = t.bin(Op::Add, residual, xs);
        if let (Some(i), Some(pli)) = (self.per_layer, per_layer_input) {
            let gated = i.gate.forward(t, xs);
            let gated = t.un(Op::Act(self.act_fn), gated);
            let mixed = t.bin(Op::Mul, gated, pli);
            let projected = i.projection.forward(t, mixed);
            let projected = i.norm.forward(t, projected);
            xs = t.bin(Op::Add, xs, projected);
        }
        if self.layer_scalar != ONE {
            xs = t.un(Op::MulScalar(Scalar::F64(self.layer_scalar)), xs);
        }
        Ok(xs)
    }

    /// Forgets what the growing cache holds.
    pub fn clear_kv_cache(t: &mut Tape, kv: &mut LayerKv)
        ensures
            final(t).wrote(*old(t)),
            final(t).bufs() == old(kv).cache.bufs_cleared(old(t).bufs()),
            *final(kv) == (LayerKv {
                cache: KvCache { len: 0, ..old(kv).cache },
                statics: old(kv).statics,
            }),
    {
        kv.cache.reset(t);
    }
}

/// A norm keeps the shape of what it normalizes.
pub proof fn lemma_norm_shape(n: RmsNorm, x: Val)
    ensures
        n.apply(x).shape == x.shape,
{
    reveal(un);
    reveal(bin);
}

} // verus!
