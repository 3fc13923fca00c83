use vstd::prelude::*;

use crate::dtype::{DType, Device};
use crate::error::Error;
use crate::gemma4::attention::Attention;
use crate::gemma4::config::Gemma4TextConfig;
use crate::gemma4::context::{zeroed, ChunkCtx, LayerKv, Shared, SharedKvStates, StaticCtx};
use crate::gemma4::layer::{lemma_norm_shape, DecoderLayer, Halfway, HalfwayOut, Mode, ModeVal, ONE};
use crate::gemma4::moe::Router;
use crate::gemma4::norm::{RmsNorm, RotaryEmbedding};
use crate::kv_cache::KvCache;
use crate::loader::{
    decimal, fitted, plain, pp, quantized, Loader, Proj, Recipe, RopePrecision, RopeTable, VarPath,
};
use crate::masks::{decoder_mask, prepare_decoder_attention_mask};
use crate::quant::{moe_quant_dtype, moe_quant_dtype_for, GgmlDType};
use crate::routing::{law_plan_unique, plan_of, rows_view};
use crate::shape::{d2, d3, d4, sat_product, sat_sum, saturating_product};
use crate::static_decode::{
    advance_effect, chunk_mask_from_pos, copy_effect, copy_into, ended, incr_add_u32, incr_u32,
    iota_add_u32, iota_effect, linked, mask_block_effect, u32_effect, write_u32, Refused,
};
use crate::tape::{
    bin, held, ids_val, opt_val, plan_view, tri, un, Buf, Bufs, Op, RoutingPlan, Scalar, Tape,
    Tensor, Val, Weight,
};

verus! {

/// Per-layer embeddings: a second table, looked up per token and layer, and a
/// projection of the input embeddings to the same place.
#[derive(Clone, Copy, PartialEq, Eq, Structural, Debug)]
pub struct PerLayerEmbedding {
    pub embed: Weight,
    pub proj: Proj,
    pub norm: RmsNorm,
}

#[derive(Debug)]
pub struct TextModel {
    pub embed: Weight,
    pub layers: Vec<DecoderLayer>,
    /// What each layer keeps between passes.
    pub kv: Vec<LayerKv>,
    pub norm: RmsNorm,
    pub lm_head: Proj,
    pub final_logit_softcapping: Option<u64>,
    pub per_layer: Option<PerLayerEmbedding>,
    pub hidden_size_per_layer_input: usize,
    pub num_hidden_layers: usize,
    pub dtype: DType,
    pub hidden_size: usize,
    pub sliding_window: usize,
    /// Context budget of the shape-static path, once it is switched on.
    pub static_max: Option<usize>,
    /// Its device state, made on first use.
    pub static_ctx: Option<StaticCtx>,
}

/// A value on its way through the layers, with everything a pass changes.
pub struct Flow {
    pub x: Val,
    pub bufs: Bufs,
    pub buffers: Seq<Buf>,
    pub kv: Seq<LayerKv>,
    pub shared: Shared,
}

/// Why a job stopped, and what it leaves behind.
pub struct Failure {
    pub error: Error,
    pub bufs: Bufs,
    pub buffers: Seq<Buf>,
    pub kv: Seq<LayerKv>,
}

/// Where a run through the layers ends.
pub enum Ran {
    Failed(Failure),
    /// At a layer whose experts the host has to choose.
    Paused(int, HalfwayOut, Seq<LayerKv>),
    Through(Flow),
}

/// [`Ran`] for the recorder.
pub enum Layered {
    Paused { layer: usize, half: Halfway, shared: SharedKvStates },
    Through { xs: Tensor },
}

/// This layer's slice of the per-layer inputs.
pub open spec fn slice_of(plis: Option<Val>, layer: int) -> Option<Val> {
    match plis {
        Some(p) => Some(un(Op::Select { dim: 2, index: layer as usize }, p)),
        None => None,
    }
}

fn slice_for(t: &mut Tape, plis: Option<Tensor>, layer: usize) -> (r: Option<Tensor>)
    requires
        old(t).has_opt(plis),
    ensures
        final(t).computed(*old(t)),
        final(t).has_opt(r),
        opt_val(r) == slice_of(opt_val(plis), layer as int),
{
    match plis {
        Some(p) => Some(t.un(Op::Select { dim: 2, index: layer }, p)),
        None => None,
    }
}

impl TextModel {
    pub open spec fn wf(self) -> bool {
        &&& self.layers.len() == self.num_hidden_layers
        &&& self.kv.len() == self.num_hidden_layers
        &&& forall|i: int| 0 <= i < self.layers.len() ==> (#[trigger] self.layers[i]).wf()
        &&& self.static_ctx matches Some(ctx) ==> self.static_max == Some(ctx.max_seq) && (
        ctx.chunk matches Some(c) ==> c.ids.shape == d2(1, c.chunk))
    }

    /// Only what the layers keep differs.
    pub open spec fn same_but_kv(self, before: TextModel) -> bool {
        self == (TextModel { kv: self.kv, ..before }) && self.kv.len() == before.kv.len()
    }

    /// The layers from `i` on, until the end or a layer whose experts the host
    /// has to choose.
    pub open spec fn run(
        self,
        device: Device,
        mode: ModeVal,
        plis: Option<Val>,
        i: int,
        f: Flow,
    ) -> Ran
        decreases self.layers.len() - i,
    {
        if i < 0 || i >= self.layers.len() {
            Ran::Through(f)
        } else {
            let layer = self.layers[i];
            match layer.halfway(device, mode, f.x, f.kv[i], f.buffers, f.bufs, f.shared) {
                Err(s) => Ran::Failed(
                    Failure {
                        error: s.error,
                        bufs: s.bufs,
                        buffers: s.buffers,
                        kv: f.kv.update(i, s.kv),
                    },
                ),
                Ok(h) => {
                    let kv = f.kv.update(i, h.kv);
                    if layer.host_routed() {
                        Ran::Paused(i, h, kv)
                    } else {
                        match layer.finished(
                            device,
                            h.residual,
                            h.mlp_out,
                            h.probs,
                            Seq::empty(),
                            slice_of(plis, i),
                        ) {
                            Err(error) => Ran::Failed(
                                Failure { error, bufs: h.bufs, buffers: h.buffers, kv },
                            ),
                            Ok(y) => self.run(
                                device,
                                mode,
                                plis,
                                i + 1,
                                Flow {
                                    x: y,
                                    bufs: h.bufs,
                                    buffers: h.buffers,
                                    kv,
                                    shared: h.shared,
                                },
                            ),
                        }
                    }
                },
            }
        }
    }

    fn run_layers(
        &mut self,
        t: &mut Tape,
        xs: Tensor,
        mode: Mode,
        plis: Option<Tensor>,
        shared: SharedKvStates,
        from: usize,
    ) -> (r: Result<Layered, Error>)
        requires
            old(self).wf(),
            from <= old(self).layers.len(),
            old(t).has(xs),
            old(t).has_opt(plis),
            mode.on(*old(t)),
            mode.fits(xs.shape.d1),
            shared.on(*old(t)),
        ensures
            final(t).grew(*old(t)),
            final(self).same_but_kv(*old(self)),
            match old(self).run(
                old(t).on(),
                mode@,
                opt_val(plis),
                from as int,
                Flow {
                    x: xs@,
                    bufs: old(t).bufs(),
                    buffers: old(t).buffers(),
                    kv: old(self).kv@,
                    shared: shared@,
                },
            ) {
                Ran::Failed(x) => {
                    &&& r == Err::<Layered, Error>(x.error)
                    &&& final(t).bufs() == x.bufs
                    &&& final(t).buffers() == x.buffers
                    &&& final(self).kv@ == x.kv
                },
                Ran::Paused(i, h, kv) => {
                    &&& r matches Ok(Layered::Paused { layer, half, shared })
                    &&& layer == i
                    &&& layer < old(self).layers.len()
                    &&& old(self).layers[i].host_routed()
                    &&& half.on(*final(t))
                    &&& half.probs is Some
                    &&& half.residual@ == h.residual
                    &&& half.mlp_out@ == h.mlp_out
                    &&& opt_val(half.probs) == h.probs
                    &&& shared@ == h.shared
                    &&& shared.on(*final(t))
                    &&& final(t).bufs() == h.bufs
                    &&& final(t).buffers() == h.buffers
                    &&& final(self).kv@ == kv
                    &&& mode.fits(half.residual.shape.d1)
                },
                Ran::Through(f) => {
                    &&& r matches Ok(Layered::Through { xs })
                    &&& final(t).has(xs)
                    &&& xs@ == f.x
                    &&& final(t).bufs() == f.bufs
                    &&& final(t).buffers() == f.buffers
                    &&& final(self).kv@ == f.kv
                },
            },
    {
        let ghost device = t.on();
        let ghost start = Flow {
            x: xs@,
            bufs: t.bufs(),
            buffers: t.buffers(),
            kv: self.kv@,
            shared: shared@,
        };
        let mut stored = shared;
        let mut cur = xs;
        let mut i: usize = from;
        while i < self.layers.len()
            invariant
                from <= i <= self.layers.len(),
                self.wf(),
                self.same_but_kv(*old(self)),
                t.grew(*old(t)),
                device == t.on(),
                device == old(t).on(),
                t.has(cur),
                t.has_opt(plis),
                mode.on(*t),
                mode.fits(cur.shape.d1),
                stored.on(*t),
                start == (Flow {
                    x: xs@,
                    bufs: old(t).bufs(),
                    buffers: old(t).buffers(),
                    kv: old(self).kv@,
                    shared: shared@,
                }),
                old(self).run(device, mode@, opt_val(plis), from as int, start) == old(self).run(
                    device,
                    mode@,
                    opt_val(plis),
                    i as int,
                    Flow {
                        x: cur@,
                        bufs: t.bufs(),
                        buffers: t.buffers(),
                        kv: self.kv@,
                        shared: stored@,
                    },
                ),
            decreases self.layers.len() - i,
        {
            let ghost before = Flow {
                x: cur@,
                bufs: t.bufs(),
                buffers: t.buffers(),
                kv: self.kv@,
                shared: stored@,
            };
            let ghost kv_before = self.kv@;
            let pli = slice_for(t, plis, i);
            let begun = self.layers[i].begin(t, &mut self.kv[i], cur, mode, &mut stored);
            assert(self.kv@ =~= kv_before.update(i as int, self.kv@[i as int]));
            let half = begun?;
            proof {
                lemma_keeps_len(
                    self.layers[i as int],
                    device,
                    mode,
                    cur@,
                    before.kv[i as int],
                    before.buffers,
                    before.bufs,
                    before.shared,
                );
            }
            if half.probs.is_some() {
                return Ok(Layered::Paused { layer: i, half, shared: stored });
            }
            let plan: RoutingPlan = Vec::new();
            assert(plan_view(plan) =~= Seq::<Seq<usize>>::empty());
            let next = self.layers[i].finish(t, half, plan, pli)?;
            proof {
                lemma_finished_shape(
                    self.layers[i as int],
                    device,
                    half.residual@,
                    half.mlp_out@,
                    opt_val(half.probs),
                    plan_view(plan),
                    opt_val(pli),
                );
            }
            cur = next;
            i += 1;
        }
        Ok(Layered::Through { xs: cur })
    }
}

impl TextModel {
    /// Element type of the tables that are only looked up.
    pub open spec fn table_dtype(l: Loader, quant: Option<GgmlDType>) -> DType {
        if quant is Some { DType::F16 } else { l.reads() }
    }

    /// Tables of the full-attention layers.
    pub open spec fn global_table(cfg: Gemma4TextConfig) -> RopeTable {
        RopeTable {
            theta: cfg.rope_theta,
            dim: cfg.global_head_dim,
            angles: cfg.rope_angles,
            precision: RopePrecision::Single,
        }
    }

    /// Tables of the sliding layers.
    pub open spec fn local_table(cfg: Gemma4TextConfig) -> RopeTable {
        RopeTable {
            theta: cfg.rope_local_base_freq,
            dim: cfg.head_dim,
            angles: (cfg.head_dim / 2 + cfg.head_dim % 2) as usize,
            precision: RopePrecision::TableType,
        }
    }

    /// The head was asked for: the embedding table itself or a quantized copy
    /// of it where the two are tied, a projection of its own otherwise.
    pub open spec fn head_asked(
        self,
        l: Loader,
        cfg: Gemma4TextConfig,
        vb: Seq<char>,
        quant: Option<GgmlDType>,
    ) -> bool {
        let (h, v) = (cfg.hidden_size, cfg.vocab_size);
        if !cfg.tie_word_embeddings {
            self.lm_head.asked(l, h, v, false, pp(vb, "lm_head"@), fitted(h, quant))
        } else {
            match quant {
                None => self.lm_head == (Proj::Plain { weight: self.embed, bias: None }),
                Some(q) => {
                    &&& self.lm_head matches Proj::Quant { weight, bias: None }
                    &&& l.gives(
                        weight,
                        quantized(
                            pp(pp(pp(vb, "model"@), "embed_tokens"@), "weight"@),
                            "lm_head.tied"@,
                            d2(v, h),
                            Recipe::CopyOf(self.embed.id),
                            moe_quant_dtype(h, q),
                            l.reads(),
                        ),
                    )
                },
            }
        }
    }

    /// Layer `i` was asked for.
    pub open spec fn layer_asked(
        layer: DecoderLayer,
        l: Loader,
        cfg: Gemma4TextConfig,
        vb: Seq<char>,
        quant: Option<GgmlDType>,
        device: Device,
        i: int,
    ) -> bool {
        let name = pp(pp(pp(vb, "model"@), "layers"@), decimal(i as nat));
        &&& layer.asked(l, cfg, i, name, quant, device)
        &&& layer.self_attn.rotary_emb_global.asked(
            l,
            Self::global_table(cfg),
            cfg.global_head_dim / 2,
            cfg.max_position_embeddings,
        )
        &&& layer.self_attn.rotary_emb_local.asked(
            l,
            Self::local_table(cfg),
            Self::local_table(cfg).angles,
            cfg.max_position_embeddings,
        )
    }

    /// Everything was asked of `l` as the configuration says.
    pub open spec fn asked(
        self,
        l: Loader,
        cfg: Gemma4TextConfig,
        vb: Seq<char>,
        quant: Option<GgmlDType>,
        device: Device,
    ) -> bool {
        let m = pp(vb, "model"@);
        let (h, p) = (cfg.hidden_size, cfg.hidden_size_per_layer_input);
        let wide = sat_product(cfg.num_hidden_layers, p);
        let table = Self::table_dtype(l, quant);
        &&& l.gives(
            self.embed,
            plain(pp(pp(m, "embed_tokens"@), "weight"@), d2(cfg.vocab_size, h), table),
        )
        &&& forall|i: int|
            0 <= i < self.layers.len() ==> Self::layer_asked(
                #[trigger] self.layers[i],
                l,
                cfg,
                vb,
                quant,
                device,
                i,
            )
        &&& self.norm.asked(l, h, cfg.rms_norm_eps, pp(m, "norm"@))
        &&& self.head_asked(l, cfg, vb, quant)
        &&& self.per_layer is Some <==> p > 0
        &&& self.per_layer matches Some(e) ==> {
            &&& l.gives(
                e.embed,
                plain(
                    pp(pp(m, "embed_tokens_per_layer"@), "weight"@),
                    d2(cfg.vocab_size_per_layer_input, wide),
                    table,
                ),
            )
            &&& e.proj.asked(
                l,
                h,
                wide,
                false,
                pp(m, "per_layer_model_projection"@),
                fitted(h, quant),
            )
            &&& e.norm.asked(l, p, cfg.rms_norm_eps, pp(m, "per_layer_projection_norm"@))
        }
    }

    /// The plain values were taken over from the configuration.
    pub open spec fn follows(self, l: Loader, cfg: Gemma4TextConfig) -> bool {
        &&& self.final_logit_softcapping == cfg.final_logit_softcapping
        &&& self.hidden_size_per_layer_input == cfg.hidden_size_per_layer_input
        &&& self.num_hidden_layers == cfg.num_hidden_layers
        &&& self.dtype == l.reads()
        &&& self.hidden_size == cfg.hidden_size
        &&& self.sliding_window == cfg.sliding_window
        &&& self.static_max is None
        &&& self.static_ctx is None
    }

    /// Empty caches of the layers.
    pub open spec fn fresh_kv(cfg: Gemma4TextConfig, max_context: Option<usize>) -> Seq<LayerKv> {
        Seq::new(
            cfg.num_hidden_layers as nat,
            |i: int|
                LayerKv {
                    cache: KvCache::new(cfg.cache_capacity(i, max_context), cfg.sliding(i)),
                    statics: None,
                },
        )
    }

    /// How many tensors the first `n` layers are.
    pub open spec fn layer_tensors(
        cfg: Gemma4TextConfig,
        quant: Option<GgmlDType>,
        device: Device,
        n: int,
    ) -> int
        decreases n,
    {
        if n <= 0 {
            0
        } else {
            Self::layer_tensors(cfg, quant, device, n - 1) + DecoderLayer::tensors(
                cfg,
                n - 1,
                quant,
                device,
            )
        }
    }

    /// How many tensors a model is: the embeddings, two pairs of rotary tables,
    /// the layers, the last norm, a head unless it is the embeddings, and what
    /// per-layer inputs need.
    pub open spec fn tensors(
        cfg: Gemma4TextConfig,
        quant: Option<GgmlDType>,
        device: Device,
    ) -> int {
        let head: int = if cfg.tie_word_embeddings && quant is None { 0 } else { 1 };
        let per_layer: int = if cfg.hidden_size_per_layer_input > 0 { 3 } else { 0 };
        6 + Self::layer_tensors(cfg, quant, device, cfg.num_hidden_layers as int) + head + per_layer
    }

    /// Asks for a dense model.
    pub fn new(
        l: &mut Loader,
        cfg: &Gemma4TextConfig,
        vb: &VarPath,
        device: Device,
        max_context: Option<usize>,
        layer_scalars: &Vec<Option<u64>>,
    ) -> (r: TextModel)
        requires
            cfg.valid(),
            layer_scalars.len() == cfg.num_hidden_layers,
        ensures
            final(l).grew(*old(l)),
            final(l).added(*old(l), Self::tensors(*cfg, None, device)),
            r.wf(),
            r.asked(*final(l), *cfg, vb@, None, device),
            r.follows(*final(l), *cfg),
            r.kv@ == Self::fresh_kv(*cfg, max_context),
            forall|i: int|
                0 <= i < r.layers.len() ==> (#[trigger] r.layers[i]).layer_scalar
                    == scalar_or_one(layer_scalars[i]),
    {
        Self::new_with_quant(l, cfg, vb, None, device, max_context, layer_scalars)
    }

    /// Asks for a model; with `quant`, every linear projection is quantized at
    /// load and the tables that are only looked up are stored in half precision.
    /// `layer_scalars` holds what the checkpoint stores as `layer_scalar` of
    /// each layer; a full-attention cache holds at most `max_context` positions.
    pub fn new_with_quant(
        l: &mut Loader,
        cfg: &Gemma4TextConfig,
        vb: &VarPath,
        quant: Option<GgmlDType>,
        device: Device,
        max_context: Option<usize>,
        layer_scalars: &Vec<Option<u64>>,
    ) -> (r: TextModel)
        requires
            cfg.valid(),
            layer_scalars.len() == cfg.num_hidden_layers,
        ensures
            final(l).grew(*old(l)),
            final(l).added(*old(l), Self::tensors(*cfg, quant, device)),
            r.wf(),
            r.asked(*final(l), *cfg, vb@, quant, device),
            r.follows(*final(l), *cfg),
            r.kv@ == Self::fresh_kv(*cfg, max_context),
            forall|i: int|
                0 <= i < r.layers.len() ==> (#[trigger] r.layers[i]).layer_scalar
                    == scalar_or_one(layer_scalars[i]),
    {
        let vb_m = vb.pp("model");
        let (h, vocab) = (cfg.hidden_size, cfg.vocab_size);
        let dtype = l.dtype();
        let embed_dtype = if quant.is_some() { DType::F16 } else { dtype };
        let vb_e = vb_m.pp("embed_tokens");
        let embed = l.get_as(&vb_e, "weight", d2(vocab, h), embed_dtype);
        let global = RopeTable {
            theta: cfg.rope_theta,
            dim: cfg.global_head_dim,
            angles: cfg.rope_angles,
            precision: RopePrecision::Single,
        };
        let half: usize = cfg.head_dim / 2 + cfg.head_dim % 2;
        let local = RopeTable {
            theta: cfg.rope_local_base_freq,
            dim: cfg.head_dim,
            angles: half,
            precision: RopePrecision::TableType,
        };
        let max_pos: usize = cfg.max_position_embeddings;
        let rotary_emb_global = RotaryEmbedding::new(l, global, cfg.global_head_dim / 2, max_pos);
        let rotary_emb_local = RotaryEmbedding::new(l, local, half, max_pos);

        let mut layers: Vec<DecoderLayer> = Vec::new();
        let mut kv: Vec<LayerKv> = Vec::new();
        let vb_l = vb_m.pp("layers");
        let mut i: usize = 0;
        let ghost rooted = *l;
        while i < cfg.num_hidden_layers
            invariant
                i <= cfg.num_hidden_layers,
                cfg.valid(),
                layer_scalars.len() == cfg.num_hidden_layers,
                vb_l@ == pp(pp(vb@, "model"@), "layers"@),
                l.grew(rooted),
                l.added(rooted, Self::layer_tensors(*cfg, quant, device, i as int)),
                rotary_emb_global.asked(rooted, global, cfg.global_head_dim / 2, max_pos),
                rotary_emb_local.asked(rooted, local, half, max_pos),
                global == Self::global_table(*cfg),
                local == Self::local_table(*cfg),
                half == local.angles,
                max_pos == cfg.max_position_embeddings,
                layers.len() == i,
                kv.len() == i,
                forall|j: int| 0 <= j < i ==> (#[trigger] layers[j]).wf(),
                forall|j: int|
                    0 <= j < i ==> Self::layer_asked(
                        #[trigger] layers[j],
                        *l,
                        *cfg,
                        vb@,
                        quant,
                        device,
                        j,
                    ),
                forall|j: int|
                    0 <= j < i ==> (#[trigger] layers[j]).layer_scalar == scalar_or_one(
                        layer_scalars[j],
                    ),
                forall|j: int|
                    0 <= j < i ==> #[trigger] kv[j] == Self::fresh_kv(*cfg, max_context)[j],
            decreases cfg.num_hidden_layers - i,
        {
            let ghost before = *l;
            let (layer, own) = DecoderLayer::new(
                l,
                rotary_emb_global,
                rotary_emb_local,
                cfg,
                i,
                &vb_l.pp_index(i),
                quant,
                device,
                max_context,
                layer_scalars[i],
            );
            proof {
                assert forall|j: int| 0 <= j < i implies Self::layer_asked(
                    #[trigger] layers[j],
                    *l,
                    *cfg,
                    vb@,
                    quant,
                    device,
                    j,
                ) by {
                    lemma_layer_asked_grows(layers[j], before, *l, *cfg, vb@, quant, device, j);
                }
            }
            layers.push(layer);
            kv.push(own);
            i += 1;
        }
        let ghost layered = *l;
        let norm = RmsNorm::new(l, h, cfg.rms_norm_eps, &vb_m.pp("norm"));
        let lm_head = if cfg.tie_word_embeddings {
            match quant {
                Some(q) => {
                    let weight = l.get_quantized(
                        &vb_e,
                        "weight",
                        "lm_head.tied".to_owned(),
                        d2(vocab, h),
                        Recipe::CopyOf(embed.id),
                        moe_quant_dtype_for(h, q),
                    );
                    Proj::Quant { weight, bias: None }
                },
                None => Proj::Plain { weight: embed, bias: None },
            }
        } else {
            Proj::new(l, h, vocab, false, &vb.pp("lm_head"), quant)
        };
        let p: usize = cfg.hidden_size_per_layer_input;
        let per_layer = if p > 0 {
            let wide: usize = saturating_product(cfg.num_hidden_layers, p);
            let embed = l.get_as(
                &vb_m.pp("embed_tokens_per_layer"),
                "weight",
                d2(cfg.vocab_size_per_layer_input, wide),
                embed_dtype,
            );
            let proj = Proj::new(
                l,
                h,
                wide,
                false,
                &vb_m.pp("per_layer_model_projection"),
                quant,
            );
            let norm = RmsNorm::new(
                l,
                p,
                cfg.rms_norm_eps,
                &vb_m.pp("per_layer_projection_norm"),
            );
            Some(PerLayerEmbedding { embed, proj, norm })
        } else {
            None
        };
        proof {
            assert forall|j: int| 0 <= j < layers.len() implies Self::layer_asked(
                #[trigger] layers[j],
                *l,
                *cfg,
                vb@,
                quant,
                device,
                j,
            ) by {
                lemma_layer_asked_grows(layers[j], layered, *l, *cfg, vb@, quant, device, j);
            }
            assert(kv@ =~= Self::fresh_kv(*cfg, max_context));
        }
        TextModel {
            embed,
            layers,
            kv,
            norm,
            lm_head,
            final_logit_softcapping: cfg.final_logit_softcapping,
            per_layer,
            hidden_size_per_layer_input: p,
            num_hidden_layers: cfg.num_hidden_layers,
            dtype,
            hidden_size: h,
            sliding_window: cfg.sliding_window,
            static_max: None,
            static_ctx: None,
        }
    }
}

/// What a run through the layers is for, and what follows it.
pub enum Task {
    /// Logits of the last of `seq_len` positions.
    Forward { seq_len: usize },
    /// One decode step at the position held on the device.
    Step { ctx: StaticCtx },
    /// One chunk of a prefill that reads only device state.
    ChunkStep { ctx: StaticCtx, cctx: ChunkCtx },
    /// A prefill in chunks; the one at `pos` is under way.
    Chunked { ctx: StaticCtx, ids: Tensor, chunk: usize, pos: usize, total: usize },
    /// A prefill in padded chunks that read only device state; number `at` is
    /// under way.
    Graph {
        ctx: StaticCtx,
        cctx: ChunkCtx,
        padded: Vec<u32>,
        at: usize,
        chunks: usize,
        total: usize,
    },
}

/// [`Task`] as values.
pub enum TaskVal {
    Forward(usize),
    Step(StaticCtx),
    ChunkStep(StaticCtx, ChunkCtx),
    Chunked { ctx: StaticCtx, ids: Val, chunk: usize, pos: usize, total: usize },
    Graph {
        ctx: StaticCtx,
        cctx: ChunkCtx,
        padded: Seq<u32>,
        at: usize,
        chunks: usize,
        total: usize,
    },
}

impl View for Task {
    type V = TaskVal;

    open spec fn view(&self) -> TaskVal {
        match *self {
            Task::Forward { seq_len } => TaskVal::Forward(seq_len),
            Task::Step { ctx } => TaskVal::Step(ctx),
            Task::ChunkStep { ctx, cctx } => TaskVal::ChunkStep(ctx, cctx),
            Task::Chunked { ctx, ids, chunk, pos, total } => TaskVal::Chunked {
                ctx,
                ids: ids@,
                chunk,
                pos,
                total,
            },
            Task::Graph { ctx, cctx, padded, at, chunks, total } => TaskVal::Graph {
                ctx,
                cctx,
                padded: padded@,
                at,
                chunks,
                total,
            },
        }
    }
}

/// Length of the chunk that starts at `pos`.
pub open spec fn chunk_len(chunk: usize, pos: usize, total: usize) -> usize {
    if total - pos <= chunk { (total - pos) as usize } else { chunk }
}

impl TaskVal {
    /// Chunks still to come, counted down.
    pub open spec fn left(self) -> int {
        match self {
            TaskVal::Chunked { ctx, ids, chunk, pos, total } => total - pos,
            TaskVal::Graph { ctx, cctx, padded, at, chunks, total } => chunks - at,
            _ => 0,
        }
    }
}

impl Task {
    /// Sizes agree with each other, handles are on the tape, and every mask can
    /// be written down.
    pub open spec fn ok(self, t: Tape) -> bool {
        match self {
            Task::Forward { seq_len } => seq_len > 0,
            Task::Step { ctx } => true,
            Task::ChunkStep { ctx, cctx } => cctx.chunk > 0,
            Task::Chunked { ctx, ids, chunk, pos, total } => {
                &&& t.has(ids)
                &&& ids.shape.rank == 2
                &&& chunk > 0
                &&& pos < total
                &&& chunk_len(chunk, 0, total) * chunk_len(chunk, 0, total) <= usize::MAX
            },
            Task::Graph { ctx, cctx, padded, at, chunks, total } => {
                &&& cctx.chunk > 0
                &&& cctx.ids.shape.countable()
                &&& at < chunks
                &&& chunks * cctx.chunk == padded.len()
                &&& total <= padded.len()
                &&& padded.len() < total + cctx.chunk
            },
        }
    }
}

/// A run that is about to enter the first layer.
pub struct Entry {
    pub mode: ModeVal,
    pub plis: Option<Val>,
    pub x: Val,
    pub bufs: Bufs,
}

/// What follows a run through all layers.
pub enum Next {
    Failed(Refused),
    Done(Val, Val, Bufs),
    Again(TaskVal, Entry),
}

/// How a job ends, or where it waits for the host.
pub enum Outcome {
    Failed(Failure),
    Paused(TaskVal, ModeVal, Option<Val>, int, HalfwayOut, Seq<LayerKv>),
    Done { hidden: Val, logits: Val, bufs: Bufs, buffers: Seq<Buf>, kv: Seq<LayerKv> },
}

/// A job that waits until the host has chosen the experts of a layer.
pub struct Pass {
    pub task: Task,
    pub mode: Mode,
    pub plis: Option<Tensor>,
    pub layer: usize,
    pub half: Halfway,
    pub shared: SharedKvStates,
}

/// A job that waits for the host, or has ended.
pub enum Progress {
    /// The probabilities in `half.probs` are to be read back and handed to
    /// [`TextModel::resume`].
    Route(Pass),
    Done { hidden: Tensor, logits: Tensor },
}

impl TextModel {
    /// Scaled embeddings of token numbers.
    pub open spec fn embedded(self, ids: Val) -> Val {
        un(
            Op::MulScalar(Scalar::Sqrt(self.hidden_size)),
            un(Op::ToDType(self.dtype), un(Op::Embedding(self.embed), ids)),
        )
    }

    /// Records the scaled embeddings of token numbers.
    pub fn embed_tokens(&self, t: &mut Tape, input_ids: Tensor) -> (r: Tensor)
        requires
            old(t).has(input_ids),
        ensures
            final(t).computed(*old(t)),
            final(t).has(r),
            r@ == self.embedded(input_ids@),
    {
        let xs = t.un(Op::Embedding(self.embed), input_ids);
        let xs = t.un(Op::ToDType(self.dtype), xs);
        t.un(Op::MulScalar(Scalar::Sqrt(self.hidden_size)), xs)
    }

    /// Combined per-layer input `[batch, seq, layers, dim]`: looked up by token
    /// and projected from the embeddings.
    pub open spec fn per_layer_input(self, ids: Val, embeds: Val) -> Result<Option<Val>, Error> {
        match self.per_layer {
            None => Ok(None),
            Some(e) => if ids.shape.rank != 2 {
                Err(Error::UnexpectedRank { expected: 2, got: ids.shape.rank })
            } else {
                let dim = self.hidden_size_per_layer_input;
                let split = Op::Reshape(
                    d4(ids.shape.d0, ids.shape.d1, self.num_hidden_layers, dim),
                );
                let looked = un(
                    split,
                    un(
                        Op::MulScalar(Scalar::Sqrt(dim)),
                        un(Op::ToDType(self.dtype), un(Op::Embedding(e.embed), ids)),
                    ),
                );
                let projected = e.norm.apply(
                    un(
                        split,
                        un(
                            Op::MulScalar(Scalar::RecipSqrt(self.hidden_size)),
                            e.proj.apply(embeds),
                        ),
                    ),
                );
                Ok(
                    Some(
                        un(
                            Op::MulScalar(Scalar::RecipSqrt(2)),
                            bin(Op::Add, projected, looked),
                        ),
                    ),
                )
            },
        }
    }

    fn per_layer_inputs(&self, t: &mut Tape, input_ids: Tensor, inputs_embeds: Tensor) -> (r: Result<
        Option<Tensor>,
        Error,
    >)
        requires
            old(t).has(input_ids),
            old(t).has(inputs_embeds),
        ensures
            final(t).computed(*old(t)),
            match self.per_layer_input(input_ids@, inputs_embeds@) {
                Err(e) => r == Err::<Option<Tensor>, Error>(e),
                Ok(p) => r is Ok && final(t).has_opt(r->Ok_0) && opt_val(r->Ok_0) == p,
            },
    {
        let e = match self.per_layer {
            None => {
                return Ok(None);
            },
            Some(e) => e,
        };
        let (b_size, seq_len) = input_ids.dims2()?;
        let per_dim: usize = self.hidden_size_per_layer_input;
        let split = Op::Reshape(d4(b_size, seq_len, self.num_hidden_layers, per_dim));
        let ple = t.un(Op::Embedding(e.embed), input_ids);
        let ple = t.un(Op::ToDType(self.dtype), ple);
        let ple = t.un(Op::MulScalar(Scalar::Sqrt(per_dim)), ple);
        let ple = t.un(split, ple);
        let projected = e.proj.forward(t, inputs_embeds);
        let projected = t.un(Op::MulScalar(Scalar::RecipSqrt(self.hidden_size)), projected);
        let projected = t.un(split, projected);
        let projected = e.norm.forward(t, projected);
        let combined = t.bin(Op::Add, projected, ple);
        Ok(Some(t.un(Op::MulScalar(Scalar::RecipSqrt(2)), combined)))
    }

    /// Norm, head and soft cap.
    pub open spec fn logits(self, hidden: Val) -> Val {
        let logits = self.lm_head.apply(self.norm.apply(hidden));
        match self.final_logit_softcapping {
            None => logits,
            Some(sc) => un(
                Op::MulScalar(Scalar::F64(sc)),
                un(Op::Tanh, un(Op::DivScalar(Scalar::F64(sc)), logits)),
            ),
        }
    }

    /// Records norm, head and soft cap on a `[1, n, hidden]` slice.
    pub fn logits_from_hidden(&self, t: &mut Tape, hidden: Tensor) -> (r: Tensor)
        requires
            old(t).has(hidden),
        ensures
            final(t).computed(*old(t)),
            final(t).has(r),
            r@ == self.logits(hidden@),
    {
        let y = self.norm.forward(t, hidden);
        let logits = self.lm_head.forward(t, y);
        match self.final_logit_softcapping {
            None => logits,
            Some(sc) => {
                let y = t.un(Op::DivScalar(Scalar::F64(sc)), logits);
                let y = t.un(Op::Tanh, y);
                t.un(Op::MulScalar(Scalar::F64(sc)), y)
            },
        }
    }

    /// Embeddings and per-layer inputs of `ids`, entering the layers in `mode`.
    pub open spec fn enter(self, ids: Val, mode: ModeVal, bufs: Bufs) -> Result<Entry, Refused> {
        let x = self.embedded(ids);
        match self.per_layer_input(ids, x) {
            Err(error) => Err(Refused { error, bufs }),
            Ok(plis) => Ok(Entry { mode, plis, x, bufs }),
        }
    }

    /// The chunk at `pos` of a prefill.
    pub open spec fn enter_chunk(
        self,
        ctx: StaticCtx,
        ids: Val,
        chunk: usize,
        pos: usize,
        total: usize,
        bufs: Bufs,
    ) -> Result<Entry, Refused> {
        let part = un(Op::Narrow { dim: 1, start: pos, len: chunk_len(chunk, pos, total) }, ids);
        self.enter(part, ModeVal::Chunk(ctx, pos), bufs)
    }

    /// A chunk that reads only device state: rotary rows and masks follow the
    /// position, the ids are those in the buffer.
    pub open spec fn enter_dev(
        self,
        device: Device,
        ctx: StaticCtx,
        c: ChunkCtx,
        bufs: Bufs,
    ) -> Result<Entry, Refused> {
        match linked(bufs, iota_effect(device, bufs, c.rope_idx, ctx.pos)) {
            Err(s) => Err(s),
            Ok(b) => match linked(
                b,
                mask_block_effect(device, b, c.mask_global, ctx.pos, None),
            ) {
                Err(s) => Err(s),
                Ok(b) => match linked(
                    b,
                    mask_block_effect(
                        device,
                        b,
                        c.mask_sliding,
                        ctx.pos,
                        Some(ctx.sliding_window),
                    ),
                ) {
                    Err(s) => Err(s),
                    Ok(b) => self.enter(held(b, c.ids), ModeVal::ChunkDev(ctx), b),
                },
            },
        }
    }

    /// The next chunk's ids fed, then [`Self::enter_dev`].
    pub open spec fn enter_fed(
        self,
        device: Device,
        ctx: StaticCtx,
        c: ChunkCtx,
        ids: Seq<u32>,
        bufs: Bufs,
    ) -> Result<Entry, Refused> {
        match linked(bufs, Self::fed(device, bufs, c, ids)) {
            Err(s) => Err(s),
            Ok(b) => self.enter_dev(device, ctx, c, b),
        }
    }

    /// Token numbers copied into the chunk's buffer.
    pub open spec fn fed(device: Device, bufs: Bufs, c: ChunkCtx, ids: Seq<u32>) -> Result<
        Bufs,
        Error,
    > {
        copy_effect(
            device,
            bufs,
            c.ids,
            un(Op::Reshape(d2(1, ids.len() as usize)), ids_val(ids)),
        )
    }

    /// What follows when `x` has come out of the last layer.
    #[verifier::opaque]
    pub open spec fn next(self, device: Device, task: TaskVal, x: Val, bufs: Bufs) -> Next {
        match task {
            TaskVal::Forward(seq_len) => {
                let last = un(Op::Narrow { dim: 1, start: (seq_len - 1) as usize, len: 1 }, x);
                Next::Done(x, self.logits(last), bufs)
            },
            TaskVal::Step(ctx) => match linked(bufs, advance_effect(device, bufs, ctx.pos, 1)) {
                Err(s) => Next::Failed(s),
                Ok(b) => Next::Done(x, self.logits(x), b),
            },
            TaskVal::ChunkStep(ctx, c) => match linked(
                bufs,
                advance_effect(device, bufs, ctx.pos, c.chunk as u32),
            ) {
                Err(s) => Next::Failed(s),
                Ok(b) => {
                    let last = un(Op::Narrow { dim: 1, start: (c.chunk - 1) as usize, len: 1 }, x);
                    Next::Done(x, self.logits(last), b)
                },
            },
            TaskVal::Chunked { ctx, ids, chunk, pos, total } => {
                let len = chunk_len(chunk, pos, total);
                if 0 < len < total - pos {
                    let pos = (pos + len) as usize;
                    match self.enter_chunk(ctx, ids, chunk, pos, total, bufs) {
                        Err(s) => Next::Failed(s),
                        Ok(entry) => Next::Again(
                            TaskVal::Chunked { ctx, ids, chunk, pos, total },
                            entry,
                        ),
                    }
                } else {
                    match linked(bufs, u32_effect(device, bufs, ctx.pos, total as u32)) {
                        Err(s) => Next::Failed(s),
                        Ok(b) => {
                            let last = un(
                                Op::Narrow { dim: 1, start: (len - 1) as usize, len: 1 },
                                x,
                            );
                            Next::Done(x, self.logits(last), b)
                        },
                    }
                }
            },
            TaskVal::Graph { ctx, cctx, padded, at, chunks, total } => match linked(
                bufs,
                advance_effect(device, bufs, ctx.pos, cctx.chunk as u32),
            ) {
                Err(s) => Next::Failed(s),
                Ok(b) => if at + 1 < chunks {
                    let at = (at + 1) as usize;
                    match self.enter_fed(device, ctx, cctx, chunk_ids(padded, cctx.chunk, at), b) {
                        Err(s) => Next::Failed(s),
                        Ok(entry) => Next::Again(
                            TaskVal::Graph { ctx, cctx, padded, at, chunks, total },
                            entry,
                        ),
                    }
                } else {
                    match linked(b, u32_effect(device, b, ctx.pos, total as u32)) {
                        Err(s) => Next::Failed(s),
                        Ok(b) => {
                            let pad = padded.len() - total;
                            let row = (cctx.chunk - 1 - pad) as usize;
                            let last = un(Op::Narrow { dim: 1, start: row, len: 1 }, x);
                            Next::Done(x, self.logits(last), b)
                        },
                    }
                },
            },
        }
    }

    /// The whole job from layer `i` on.
    pub open spec fn drive(
        self,
        device: Device,
        task: TaskVal,
        mode: ModeVal,
        plis: Option<Val>,
        i: int,
        f: Flow,
    ) -> Outcome
        decreases task.left(),
    {
        proof {
            reveal(TextModel::next);
        }
        match self.run(device, mode, plis, i, f) {
            Ran::Failed(x) => Outcome::Failed(x),
            Ran::Paused(i, h, kv) => Outcome::Paused(task, mode, plis, i, h, kv),
            Ran::Through(g) => match self.next(device, task, g.x, g.bufs) {
                Next::Failed(s) => Outcome::Failed(
                    Failure { error: s.error, bufs: s.bufs, buffers: g.buffers, kv: g.kv },
                ),
                Next::Done(hidden, logits, bufs) => Outcome::Done {
                    hidden,
                    logits,
                    bufs,
                    buffers: g.buffers,
                    kv: g.kv,
                },
                Next::Again(task, e) => self.drive(
                    device,
                    task,
                    e.mode,
                    e.plis,
                    0,
                    Flow {
                        x: e.x,
                        bufs: e.bufs,
                        buffers: g.buffers,
                        kv: g.kv,
                        shared: Shared::none(),
                    },
                ),
            },
        }
    }
}

/// [`Entry`] for the recorder.
struct Entered {
    mode: Mode,
    plis: Option<Tensor>,
    xs: Tensor,
}

impl Entered {
    spec fn is(self, t: Tape, e: Entry) -> bool {
        &&& self.mode@ == e.mode
        &&& opt_val(self.plis) == e.plis
        &&& self.xs@ == e.x
        &&& t.bufs() == e.bufs
        &&& t.has(self.xs)
        &&& t.has_opt(self.plis)
        &&& self.mode.on(t)
    }
}

/// [`Next`] for the recorder.
enum Following {
    Done { hidden: Tensor, logits: Tensor },
    Again { task: Task, entered: Entered },
}

impl TextModel {
    fn begin(&self, t: &mut Tape, ids: Tensor, mode: Mode) -> (r: Result<Entered, Error>)
        requires
            old(t).has(ids),
            mode.on(*old(t)),
        ensures
            final(t).computed(*old(t)),
            match self.enter(ids@, mode@, old(t).bufs()) {
                Err(s) => r == Err::<Entered, Error>(s.error) && final(t).bufs() == s.bufs,
                Ok(e) => r is Ok && r->Ok_0.is(*final(t), e) && r->Ok_0.mode == mode,
            },
    {
        let xs = self.embed_tokens(t, ids);
        let plis = self.per_layer_inputs(t, ids, xs)?;
        Ok(Entered { mode, plis, xs })
    }

    fn begin_chunk(
        &self,
        t: &mut Tape,
        ctx: StaticCtx,
        ids: Tensor,
        chunk: usize,
        pos: usize,
        total: usize,
    ) -> (r: Result<Entered, Error>)
        requires
            old(t).has(ids),
            ids.shape.rank == 2,
            pos < total,
            chunk_len(chunk, 0, total) * chunk_len(chunk, 0, total) <= usize::MAX,
        ensures
            final(t).computed(*old(t)),
            match self.enter_chunk(ctx, ids@, chunk, pos, total, old(t).bufs()) {
                Err(s) => r == Err::<Entered, Error>(s.error) && final(t).bufs() == s.bufs,
                Ok(e) => {
                    &&& r is Ok
                    &&& r->Ok_0.is(*final(t), e)
                    &&& r->Ok_0.mode.fits(r->Ok_0.xs.shape.d1)
                },
            },
    {
        let len: usize = if total - pos <= chunk { total - pos } else { chunk };
        let part = t.un(Op::Narrow { dim: 1, start: pos, len }, ids);
        let r = self.begin(t, part, Mode::Chunk { ctx, pos })?;
        proof {
            let most = chunk_len(chunk, 0, total);
            assert(len * len <= most * most) by (nonlinear_arith)
                requires
                    0 <= len <= most,
            ;
            assert(r.xs@.shape.d1 == len) by {
                reveal(un);
            }
        }
        Ok(r)
    }

    fn begin_dev(&self, t: &mut Tape, ctx: StaticCtx, c: ChunkCtx) -> (r: Result<Entered, Error>)
        ensures
            final(t).wrote(*old(t)),
            match self.enter_dev(old(t).on(), ctx, c, old(t).bufs()) {
                Err(s) => r == Err::<Entered, Error>(s.error) && final(t).bufs() == s.bufs,
                Ok(e) => r is Ok && r->Ok_0.is(*final(t), e) && r->Ok_0.mode is ChunkDev,
            },
    {
        iota_add_u32(t, c.rope_idx, ctx.pos)?;
        chunk_mask_from_pos(t, c.mask_global, ctx.pos, None)?;
        chunk_mask_from_pos(t, c.mask_sliding, ctx.pos, Some(ctx.sliding_window))?;
        let ids = t.read(c.ids);
        self.begin(t, ids, Mode::ChunkDev { ctx })
    }

    fn begin_fed(
        &self,
        t: &mut Tape,
        ctx: StaticCtx,
        c: ChunkCtx,
        padded: &Vec<u32>,
        at: usize,
    ) -> (r: Result<Entered, Error>)
        requires
            at * c.chunk + c.chunk <= padded.len(),
            c.ids.shape.countable(),
        ensures
            final(t).wrote(*old(t)),
            match self.enter_fed(
                old(t).on(),
                ctx,
                c,
                chunk_ids(padded@, c.chunk, at),
                old(t).bufs(),
            ) {
                Err(s) => r == Err::<Entered, Error>(s.error) && final(t).bufs() == s.bufs,
                Ok(e) => r is Ok && r->Ok_0.is(*final(t), e) && r->Ok_0.mode is ChunkDev,
            },
    {
        proof {
            assert(0 <= at * c.chunk) by (nonlinear_arith);
        }
        let from: usize = at * c.chunk;
        let mut part: Vec<u32> = Vec::new();
        let mut i: usize = 0;
        while i < c.chunk
            invariant
                i <= c.chunk,
                from == at * c.chunk,
                from + c.chunk <= padded.len(),
                part@ == padded@.subrange(from as int, from + i),
            decreases c.chunk - i,
        {
            part.push(padded[from + i]);
            assert(part@ =~= padded@.subrange(from as int, from + i + 1));
            i += 1;
        }
        assert(part@ =~= chunk_ids(padded@, c.chunk, at));
        Self::feed(t, c, part)?;
        self.begin_dev(t, ctx, c)
    }

    fn feed(t: &mut Tape, c: ChunkCtx, ids: Vec<u32>) -> (r: Result<(), Error>)
        requires
            c.ids.shape.countable(),
        ensures
            final(t).wrote(*old(t)),
            ended(
                r,
                old(t).bufs(),
                final(t).bufs(),
                Self::fed(old(t).on(), old(t).bufs(), c, ids@),
            ),
    {
        let n: usize = ids.len();
        let src = t.ids(ids);
        let src = t.un(Op::Reshape(d2(1, n)), src);
        assert(src@.shape.countable()) by {
            reveal(un);
        }
        copy_into(t, c.ids, src)
    }

    fn follow(&self, t: &mut Tape, task: Task, xs: Tensor) -> (r: Result<Following, Error>)
        requires
            task.ok(*old(t)),
            old(t).has(xs),
        ensures
            final(t).wrote(*old(t)),
            match self.next(old(t).on(), task@, xs@, old(t).bufs()) {
                Next::Failed(s) => {
                    r == Err::<Following, Error>(s.error) && final(t).bufs() == s.bufs
                },
                Next::Done(h, l, b) => {
                    &&& r matches Ok(Following::Done { hidden, logits })
                    &&& final(t).has(hidden)
                    &&& final(t).has(logits)
                    &&& hidden@ == h
                    &&& logits@ == l
                    &&& final(t).bufs() == b
                },
                Next::Again(v, e) => {
                    &&& r matches Ok(Following::Again { task: after, entered })
                    &&& after@ == v
                    &&& after.ok(*final(t))
                    &&& entered.is(*final(t), e)
                    &&& entered.mode.fits(entered.xs.shape.d1)
                    &&& v.left() < task@.left()
                },
            },
    {
        reveal(TextModel::next);
        match task {
            Task::Forward { seq_len } => {
                let last = t.un(Op::Narrow { dim: 1, start: seq_len - 1, len: 1 }, xs);
                let logits = self.logits_from_hidden(t, last);
                Ok(Following::Done { hidden: xs, logits })
            },
            Task::Step { ctx } => {
                let logits = self.logits_from_hidden(t, xs);
                incr_u32(t, ctx.pos)?;
                Ok(Following::Done { hidden: xs, logits })
            },
            Task::ChunkStep { ctx, cctx } => {
                incr_add_u32(t, ctx.pos, cctx.chunk as u32)?;
                let last = t.un(Op::Narrow { dim: 1, start: cctx.chunk - 1, len: 1 }, xs);
                let logits = self.logits_from_hidden(t, last);
                Ok(Following::Done { hidden: xs, logits })
            },
            Task::Chunked { ctx, ids, chunk, pos, total } => {
                let len: usize = if total - pos <= chunk { total - pos } else { chunk };
                if len < total - pos {
                    let pos: usize = pos + len;
                    let entered = self.begin_chunk(t, ctx, ids, chunk, pos, total)?;
                    let task = Task::Chunked { ctx, ids, chunk, pos, total };
                    Ok(Following::Again { task, entered })
                } else {
                    write_u32(t, ctx.pos, total as u32)?;
                    let last = t.un(Op::Narrow { dim: 1, start: len - 1, len: 1 }, xs);
                    let logits = self.logits_from_hidden(t, last);
                    Ok(Following::Done { hidden: xs, logits })
                }
            },
            Task::Graph { ctx, cctx, padded, at, chunks, total } => {
                incr_add_u32(t, ctx.pos, cctx.chunk as u32)?;
                if at + 1 < chunks {
                    let at: usize = at + 1;
                    proof {
                        let (a, n, c) = (at as int, chunks as int, cctx.chunk as int);
                        assert(a * c + c <= n * c) by (nonlinear_arith)
                            requires
                                a + 1 <= n,
                                c >= 0,
                        ;
                    }
                    let entered = self.begin_fed(t, ctx, cctx, &padded, at)?;
                    let task = Task::Graph { ctx, cctx, padded, at, chunks, total };
                    Ok(Following::Again { task, entered })
                } else {
                    write_u32(t, ctx.pos, total as u32)?;
                    let pad: usize = padded.len() - total;
                    let row: usize = cctx.chunk - 1 - pad;
                    let last = t.un(Op::Narrow { dim: 1, start: row, len: 1 }, xs);
                    let logits = self.logits_from_hidden(t, last);
                    Ok(Following::Done { hidden: xs, logits })
                }
            },
        }
    }

    /// `r` and the state after the call are what `want` says.
    pub open spec fn gave(
        self,
        r: Result<Progress, Error>,
        t: Tape,
        want: Outcome,
    ) -> bool {
        match want {
            Outcome::Failed(x) => {
                &&& r == Err::<Progress, Error>(x.error)
                &&& t.bufs() == x.bufs
                &&& t.buffers() == x.buffers
                &&& self.kv@ == x.kv
            },
            Outcome::Paused(task, mode, plis, layer, h, kv) => {
                &&& r matches Ok(Progress::Route(p))
                &&& self.waits(p, t)
                &&& p.task@ == task
                &&& p.mode@ == mode
                &&& opt_val(p.plis) == plis
                &&& p.layer == layer
                &&& p.half.residual@ == h.residual
                &&& p.half.mlp_out@ == h.mlp_out
                &&& opt_val(p.half.probs) == h.probs
                &&& p.shared@ == h.shared
                &&& t.bufs() == h.bufs
                &&& t.buffers() == h.buffers
                &&& self.kv@ == kv
            },
            Outcome::Done { hidden: h, logits: l, bufs, buffers, kv } => {
                &&& r matches Ok(Progress::Done { hidden, logits })
                &&& t.has(hidden)
                &&& t.has(logits)
                &&& hidden@ == h
                &&& logits@ == l
                &&& t.bufs() == bufs
                &&& t.buffers() == buffers
                &&& self.kv@ == kv
            },
        }
    }

    /// `p` waits for the experts of a layer of this model, on tape `t`.
    pub open spec fn waits(self, p: Pass, t: Tape) -> bool {
        &&& p.layer < self.layers.len()
        &&& self.layers[p.layer as int].host_routed()
        &&& p.half.on(t)
        &&& p.half.probs is Some
        &&& p.shared.on(t)
        &&& t.has_opt(p.plis)
        &&& p.mode.on(t)
        &&& p.mode.fits(p.half.residual.shape.d1)
        &&& p.task.ok(t)
    }

    fn work(
        &mut self,
        t: &mut Tape,
        task: Task,
        entered: Entered,
        shared: SharedKvStates,
        from: usize,
    ) -> (r: Result<Progress, Error>)
        requires
            old(self).wf(),
            from <= old(self).layers.len(),
            task.ok(*old(t)),
            old(t).has(entered.xs),
            old(t).has_opt(entered.plis),
            entered.mode.on(*old(t)),
            entered.mode.fits(entered.xs.shape.d1),
            shared.on(*old(t)),
        ensures
            final(t).grew(*old(t)),
            final(self).same_but_kv(*old(self)),
            final(self).gave(
                r,
                *final(t),
                old(self).drive(
                    old(t).on(),
                    task@,
                    entered.mode@,
                    opt_val(entered.plis),
                    from as int,
                    Flow {
                        x: entered.xs@,
                        bufs: old(t).bufs(),
                        buffers: old(t).buffers(),
                        kv: old(self).kv@,
                        shared: shared@,
                    },
                ),
            ),
    {
        let ghost device = t.on();
        let ghost want = old(self).drive(
            device,
            task@,
            entered.mode@,
            opt_val(entered.plis),
            from as int,
            Flow {
                x: entered.xs@,
                bufs: t.bufs(),
                buffers: t.buffers(),
                kv: self.kv@,
                shared: shared@,
            },
        );
        let mut job = task;
        let mut at = entered;
        let mut stored = shared;
        let mut first: usize = from;
        loop
            invariant
                self.wf(),
                self.same_but_kv(*old(self)),
                t.grew(*old(t)),
                device == t.on(),
                device == old(t).on(),
                first <= self.layers.len(),
                job.ok(*t),
                t.has(at.xs),
                t.has_opt(at.plis),
                at.mode.on(*t),
                at.mode.fits(at.xs.shape.d1),
                stored.on(*t),
                want == old(self).drive(
                    old(t).on(),
                    task@,
                    entered.mode@,
                    opt_val(entered.plis),
                    from as int,
                    Flow {
                        x: entered.xs@,
                        bufs: old(t).bufs(),
                        buffers: old(t).buffers(),
                        kv: old(self).kv@,
                        shared: shared@,
                    },
                ),
                want == old(self).drive(
                    device,
                    job@,
                    at.mode@,
                    opt_val(at.plis),
                    first as int,
                    Flow {
                        x: at.xs@,
                        bufs: t.bufs(),
                        buffers: t.buffers(),
                        kv: self.kv@,
                        shared: stored@,
                    },
                ),
            decreases job@.left(),
        {
            proof {
                let f = Flow {
                    x: at.xs@,
                    bufs: t.bufs(),
                    buffers: t.buffers(),
                    kv: self.kv@,
                    shared: stored@,
                };
                lemma_same_run(
                    *self,
                    *old(self),
                    device,
                    at.mode@,
                    opt_val(at.plis),
                    first as int,
                    f,
                );
            }
            let Entered { mode, plis, xs } = at;
            match self.run_layers(t, xs, mode, plis, stored, first)? {
                Layered::Paused { layer, half, shared } => {
                    let pass = Pass { task: job, mode, plis, layer, half, shared };
                    return Ok(Progress::Route(pass));
                },
                Layered::Through { xs } => {
                    proof {
                        lemma_same_next(*self, *old(self), device, job@, xs@, t.bufs());
                    }
                    match self.follow(t, job, xs)? {
                        Following::Done { hidden, logits } => {
                            return Ok(Progress::Done { hidden, logits });
                        },
                        Following::Again { task: next, entered: e } => {
                            job = next;
                            at = e;
                            stored = SharedKvStates::none();
                            first = 0;
                        },
                    }
                },
            }
        }
    }
}

/// Tokens per chunk of a prefill: as asked, 512 by default, and at least one.
pub fn prefill_chunk(asked: Option<usize>) -> (r: usize)
    ensures
        r == (match asked {
            Some(n) => if n == 0 { 1usize } else { n },
            None => 512usize,
        }),
{
    match asked {
        Some(n) => if n == 0 { 1 } else { n },
        None => 512,
    }
}

/// `ids` filled up with zeros to a whole number of chunks.
pub open spec fn padded_ids(ids: Seq<u32>, chunk: usize) -> Seq<u32> {
    ids + Seq::new((chunk_count(ids.len() as int, chunk as int) * chunk - ids.len()) as nat, |i: int| 0u32)
}

/// Chunks that `total` tokens take.
pub open spec fn chunk_count(total: int, chunk: int) -> int {
    if total % chunk == 0 { total / chunk } else { total / chunk + 1 }
}

/// Padding fills less than one chunk.
pub(crate) proof fn lemma_chunk_count(total: int, chunk: int)
    requires
        0 <= total,
        0 < chunk,
    ensures
        total <= chunk_count(total, chunk) * chunk < total + chunk,
        chunk_count(total, chunk) == 0 <==> total == 0,
        0 <= chunk_count(total, chunk) <= total,
{
    vstd::arithmetic::div_mod::lemma_fundamental_div_mod(total, chunk);
    let q = total / chunk;
    assert(chunk * q == q * chunk) by (nonlinear_arith);
    assert((q + 1) * chunk == q * chunk + chunk) by (nonlinear_arith);
    assert(0 <= q <= total) by (nonlinear_arith)
        requires
            0 <= total,
            0 < chunk,
            q == total / chunk,
    ;
    assert(total % chunk != 0 ==> q + 1 <= total) by (nonlinear_arith)
        requires
            0 <= total,
            0 < chunk,
            q == total / chunk,
            total == chunk * q + total % chunk,
            0 <= total % chunk < chunk,
    ;
    if total > 0 && total % chunk == 0 {
        assert(q > 0) by (nonlinear_arith)
            requires
                total > 0,
                q >= 0,
                total == chunk * q,
        ;
    }
}

impl TextModel {
    /// Masks of a pass; a single position needs none.
    pub open spec fn pass_masks(self, b: usize, len: usize, offset: usize) -> (Option<Val>, Option<Val>) {
        if len <= 1 {
            (None, None)
        } else {
            (
                Some(decoder_mask(b, len, offset, None, self.dtype)),
                Some(decoder_mask(b, len, offset, Some(self.sliding_window), self.dtype)),
            )
        }
    }

    fn create_attention_masks(
        &self,
        t: &mut Tape,
        batch_size: usize,
        seq_len: usize,
        seqlen_offset: usize,
    ) -> (r: (Option<Tensor>, Option<Tensor>))
        requires
            seq_len * seq_len <= usize::MAX,
        ensures
            final(t).computed(*old(t)),
            final(t).has_opt(r.0),
            final(t).has_opt(r.1),
            (opt_val(r.0), opt_val(r.1)) == self.pass_masks(batch_size, seq_len, seqlen_offset),
    {
        if seq_len <= 1 {
            return (None, None);
        }
        let mask = prepare_decoder_attention_mask(
            t,
            batch_size,
            seq_len,
            seqlen_offset,
            None,
            self.dtype,
        );
        let sliding_mask = prepare_decoder_attention_mask(
            t,
            batch_size,
            seq_len,
            seqlen_offset,
            Some(self.sliding_window),
            self.dtype,
        );
        (Some(mask), Some(sliding_mask))
    }

    /// A pass over embeddings with growing caches.
    pub open spec fn embeds_job(
        self,
        device: Device,
        xs: Val,
        plis: Option<Val>,
        offset: usize,
        b: usize,
        len: usize,
        bufs: Bufs,
        buffers: Seq<Buf>,
    ) -> Outcome {
        let (mask, sliding) = self.pass_masks(b, len, offset);
        self.drive(
            device,
            TaskVal::Forward(len),
            ModeVal::Dynamic(mask, sliding, offset),
            plis,
            0,
            Flow { x: xs, bufs, buffers, kv: self.kv@, shared: Shared::none() },
        )
    }

    /// Records a pass over embeddings: logits of the last of `seq_len`
    /// positions, after `seqlen_offset` cached ones.
    pub fn forward_embeds(
        &mut self,
        t: &mut Tape,
        xs: Tensor,
        per_layer_inputs: Option<Tensor>,
        seqlen_offset: usize,
        batch_size: usize,
        seq_len: usize,
    ) -> (r: Result<Progress, Error>)
        requires
            old(self).wf(),
            old(t).has(xs),
            old(t).has_opt(per_layer_inputs),
            seq_len > 0,
            seq_len * seq_len <= usize::MAX,
        ensures
            final(t).grew(*old(t)),
            final(self).same_but_kv(*old(self)),
            final(self).gave(
                r,
                *final(t),
                old(self).embeds_job(
                    old(t).on(),
                    xs@,
                    opt_val(per_layer_inputs),
                    seqlen_offset,
                    batch_size,
                    seq_len,
                    old(t).bufs(),
                    old(t).buffers(),
                ),
            ),
    {
        let (mask, sliding_mask) = self.create_attention_masks(
            t,
            batch_size,
            seq_len,
            seqlen_offset,
        );
        let mode = Mode::Dynamic { mask, sliding_mask, offset: seqlen_offset };
        let entered = Entered { mode, plis: per_layer_inputs, xs };
        self.work(t, Task::Forward { seq_len }, entered, SharedKvStates::none(), 0)
    }

    /// A job that was refused before any layer ran.
    pub open spec fn refused(self, error: Error, bufs: Bufs, buffers: Seq<Buf>) -> Outcome {
        Outcome::Failed(Failure { error, bufs, buffers, kv: self.kv@ })
    }

    /// A pass over token numbers with growing caches.
    pub open spec fn forward_job(
        self,
        device: Device,
        ids: Val,
        offset: usize,
        bufs: Bufs,
        buffers: Seq<Buf>,
    ) -> Outcome {
        if ids.shape.rank != 2 {
            self.refused(
                Error::UnexpectedRank { expected: 2, got: ids.shape.rank },
                bufs,
                buffers,
            )
        } else {
            let xs = self.embedded(ids);
            match self.per_layer_input(ids, xs) {
                Err(e) => self.refused(e, bufs, buffers),
                Ok(plis) => self.embeds_job(
                    device,
                    xs,
                    plis,
                    offset,
                    ids.shape.d0,
                    ids.shape.d1,
                    bufs,
                    buffers,
                ),
            }
        }
    }

    /// Records a pass over token numbers `[batch, seq]` after `seqlen_offset`
    /// cached positions.
    pub fn forward(&mut self, t: &mut Tape, input_ids: Tensor, seqlen_offset: usize) -> (r: Result<
        Progress,
        Error,
    >)
        requires
            old(self).wf(),
            old(t).has(input_ids),
            input_ids.shape.rank == 2 ==> input_ids.shape.d1 > 0,
            input_ids.shape.d1 * input_ids.shape.d1 <= usize::MAX,
        ensures
            final(t).grew(*old(t)),
            final(self).same_but_kv(*old(self)),
            final(self).gave(
                r,
                *final(t),
                old(self).forward_job(
                    old(t).on(),
                    input_ids@,
                    seqlen_offset,
                    old(t).bufs(),
                    old(t).buffers(),
                ),
            ),
    {
        let (b_size, seq_len) = input_ids.dims2()?;
        let xs = self.embed_tokens(t, input_ids);
        let per_layer_inputs = self.per_layer_inputs(t, input_ids, xs)?;
        self.forward_embeds(t, xs, per_layer_inputs, seqlen_offset, b_size, seq_len)
    }

    /// A waiting job, with the experts in `plan`.
    pub open spec fn resumed(
        self,
        device: Device,
        p: Pass,
        plan: Seq<Seq<usize>>,
        bufs: Bufs,
        buffers: Seq<Buf>,
    ) -> Outcome {
        let i = p.layer as int;
        match self.layers[i].finished(
            device,
            p.half.residual@,
            p.half.mlp_out@,
            opt_val(p.half.probs),
            plan,
            slice_of(opt_val(p.plis), i),
        ) {
            Err(e) => self.refused(e, bufs, buffers),
            Ok(y) => self.drive(
                device,
                p.task@,
                p.mode@,
                opt_val(p.plis),
                i + 1,
                Flow { x: y, bufs, buffers, kv: self.kv@, shared: p.shared@ },
            ),
        }
    }

    /// Experts among which layer `i` chooses, and how many it takes.
    pub open spec fn router_of(self, i: int) -> Router {
        self.layers[i].moe->0.router
    }

    /// Goes on with a waiting job, given the rows of probabilities that the
    /// device computed, as bits. Every row has an entry per expert.
    pub fn resume(&mut self, t: &mut Tape, pass: Pass, rows: &Vec<Vec<u32>>) -> (r: Result<
        Progress,
        Error,
    >)
        requires
            old(self).wf(),
            old(self).waits(pass, *old(t)),
        ensures
            final(t).grew(*old(t)),
            final(self).same_but_kv(*old(self)),
            ({
                let router = old(self).router_of(pass.layer as int);
                let complete = forall|i: int|
                    0 <= i < rows.len() ==> #[trigger] rows_view(*rows)[i].len()
                        == router.num_experts;
                &&& !complete ==> r == Err::<Progress, Error>(Error::ShapeMismatch)
                    && *final(self) == *old(self) && final(t).computed(*old(t))
                &&& complete ==> final(self).gave(
                    r,
                    *final(t),
                    old(self).resumed(
                        old(t).on(),
                        pass,
                        plan_of(rows_view(*rows), router.top_k as int),
                        old(t).bufs(),
                        old(t).buffers(),
                    ),
                )
            }),
    {
        let Pass { task, mode, plis, layer, half, shared } = pass;
        let pli = slice_for(t, plis, layer);
        let next = {
            let own = &self.layers[layer];
            let plan = match &own.moe {
                Some(moe) => moe.router.route(rows)?,
                None => Vec::new(),
            };
            proof {
                law_plan_unique(
                    rows_view(*rows),
                    self.router_of(layer as int).top_k as int,
                    plan_view(plan),
                );
            }
            own.finish(t, half, plan, pli)?
        };
        proof {
            lemma_finished_shape(
                self.layers[layer as int],
                t.on(),
                half.residual@,
                half.mlp_out@,
                opt_val(half.probs),
                plan_of(rows_view(*rows), self.router_of(layer as int).top_k as int),
                opt_val(pli),
            );
        }
        self.work(t, task, Entered { mode, plis, xs: next }, shared, layer + 1)
    }

    /// Switches to the shape-static decode path with a fixed context budget,
    /// from position zero. Allocates nothing until the path is first used.
    pub fn enable_static_decode(&mut self, max_seq: usize)
        requires
            old(self).wf(),
        ensures
            final(self).wf(),
            *final(self) == (TextModel {
                static_max: Some(max_seq),
                static_ctx: None,
                ..*old(self)
            }),
    {
        self.static_max = Some(max_seq);
        self.static_ctx = None;
    }

    pub fn static_enabled(&self) -> (r: bool)
        ensures
            r == self.static_max is Some,
    {
        self.static_max.is_some()
    }

    /// The device state of the static path; a new one follows the buffers
    /// there are.
    pub open spec fn context_at(self, buffers: Seq<Buf>) -> Option<StaticCtx> {
        match (self.static_max, self.static_ctx) {
            (Some(max_seq), None) => Some(
                StaticCtx::made(buffers.len() as int, max_seq, self.sliding_window),
            ),
            _ => self.static_ctx,
        }
    }

    /// The device state of the static path is still to be made.
    pub open spec fn unmade(self) -> bool {
        self.static_max is Some && self.static_ctx is None
    }

    /// The model with the device state of the static path, where that is
    /// switched on.
    pub open spec fn ready(self, buffers: Seq<Buf>) -> TextModel {
        TextModel { static_ctx: self.context_at(buffers), ..self }
    }

    pub open spec fn ready_buffers(self, buffers: Seq<Buf>) -> Seq<Buf> {
        if self.unmade() {
            let ctx = self.context_at(buffers)->0;
            buffers.push(ctx.pos).push(ctx.mask_global).push(ctx.mask_sliding)
        } else {
            buffers
        }
    }

    pub open spec fn ready_bufs(self, buffers: Seq<Buf>, bufs: Bufs) -> Bufs {
        if self.unmade() {
            let ctx = self.context_at(buffers)->0;
            zeroed(zeroed(zeroed(bufs, ctx.pos), ctx.mask_global), ctx.mask_sliding)
        } else {
            bufs
        }
    }

    /// Makes the device state of the static path, where that is switched on,
    /// unless it is there.
    fn make_ready(&mut self, t: &mut Tape)
        requires
            old(self).wf(),
        ensures
            final(self).wf(),
            final(t).grew(*old(t)),
            *final(self) == old(self).ready(old(t).buffers()),
            final(t).buffers() == old(self).ready_buffers(old(t).buffers()),
            final(t).bufs() == old(self).ready_bufs(old(t).buffers(), old(t).bufs()),
    {
        if self.static_ctx.is_none() {
            if let Some(max_seq) = self.static_max {
                self.static_ctx = Some(StaticCtx::new(t, max_seq, self.sliding_window));
            }
        }
    }

    /// The static context, or the error that it is not there.
    fn context(&self) -> (r: Result<StaticCtx, Error>)
        ensures
            r == (match self.static_ctx {
                Some(ctx) => Ok::<StaticCtx, Error>(ctx),
                None => Err::<StaticCtx, Error>(Error::StaticNotEnabled),
            }),
    {
        match self.static_ctx {
            Some(ctx) => Ok(ctx),
            None => Err(Error::StaticNotEnabled),
        }
    }

    /// Rewinds the position to zero, before a prefill graph is captured. A
    /// position that is still to be made will start there.
    pub fn reset_static_pos(&mut self, t: &mut Tape) -> (r: Result<(), Error>)
        ensures
            *final(self) == *old(self),
            final(t).wrote(*old(t)),
            ended(
                r,
                old(t).bufs(),
                final(t).bufs(),
                match (old(self).static_max, old(self).static_ctx) {
                    (_, Some(ctx)) => u32_effect(old(t).on(), old(t).bufs(), ctx.pos, 0),
                    (Some(_), None) => Ok(old(t).bufs()),
                    (None, None) => Err(Error::StaticNotEnabled),
                },
            ),
    {
        match self.static_ctx {
            Some(ctx) => write_u32(t, ctx.pos, 0),
            None => if self.static_max.is_some() {
                Ok(())
            } else {
                Err(Error::StaticNotEnabled)
            },
        }
    }

    /// Where the position is held.
    pub fn static_pos(&mut self, t: &mut Tape) -> (r: Result<Buf, Error>)
        requires
            old(self).wf(),
        ensures
            final(self).wf(),
            final(t).grew(*old(t)),
            *final(self) == old(self).ready(old(t).buffers()),
            final(t).buffers() == old(self).ready_buffers(old(t).buffers()),
            final(t).bufs() == old(self).ready_bufs(old(t).buffers(), old(t).bufs()),
            r == (match old(self).context_at(old(t).buffers()) {
                Some(ctx) => Ok::<Buf, Error>(ctx.pos),
                None => Err::<Buf, Error>(Error::StaticNotEnabled),
            }),
    {
        self.make_ready(t);
        let ctx = self.context()?;
        Ok(ctx.pos)
    }

    /// The position, given what its buffer holds, if there is one.
    pub fn static_pos_debug(&self, held: u32) -> (r: u32)
        requires
            self.wf(),
        ensures
            r == (match (self.static_max, self.static_ctx) {
                (None, _) => u32::MAX,
                (Some(_), None) => 0,
                (Some(_), Some(_)) => held,
            }),
    {
        if self.static_max.is_none() {
            u32::MAX
        } else if self.static_ctx.is_none() {
            0
        } else {
            held
        }
    }

    /// Makes the device state of the chunked prefill, unless it is there.
    pub fn enable_chunk_graph(&mut self, t: &mut Tape, chunk: usize) -> (r: Result<(), Error>)
        requires
            old(self).wf(),
        ensures
            final(self).wf(),
            final(t).grew(*old(t)),
            ({
                let buffers = old(self).ready_buffers(old(t).buffers());
                let bufs = old(self).ready_bufs(old(t).buffers(), old(t).bufs());
                match old(self).context_at(old(t).buffers()) {
                    None => {
                        &&& r == Err::<(), Error>(Error::StaticNotEnabled)
                        &&& *final(self) == *old(self)
                        &&& final(t).computed(*old(t))
                    },
                    Some(ctx) => if ctx.chunk is Some {
                        r == Ok::<(), Error>(()) && *final(self) == *old(self)
                            && final(t).computed(*old(t))
                    } else {
                        let c = ctx.chunk_made(buffers.len() as int, chunk);
                        &&& r == Ok::<(), Error>(())
                        &&& *final(self) == (TextModel {
                            static_ctx: Some(StaticCtx { chunk: Some(c), ..ctx }),
                            ..*old(self)
                        })
                        &&& final(t).buffers() == buffers.push(c.ids).push(c.rope_idx).push(
                            c.mask_global,
                        ).push(c.mask_sliding)
                        &&& final(t).bufs() == zeroed(
                            zeroed(zeroed(zeroed(bufs, c.ids), c.rope_idx), c.mask_global),
                            c.mask_sliding,
                        )
                    },
                }
            }),
    {
        self.make_ready(t);
        let mut ctx = self.context()?;
        ctx.enable_chunk(t, chunk);
        self.static_ctx = Some(ctx);
        Ok(())
    }

    fn chunk_context(&self) -> (r: Result<(StaticCtx, ChunkCtx), Error>)
        ensures
            r == self.chunk_state(),
    {
        if self.static_max.is_none() {
            return Err(Error::StaticNotEnabled);
        }
        match self.static_ctx {
            Some(ctx) => match ctx.chunk {
                Some(c) => Ok((ctx, c)),
                None => Err(Error::ChunkNotEnabled),
            },
            None => Err(Error::ChunkNotEnabled),
        }
    }

    /// The device state of the chunked prefill, or what is missing of it.
    pub open spec fn chunk_state(self) -> Result<(StaticCtx, ChunkCtx), Error> {
        match (self.static_max, self.static_ctx) {
            (None, _) => Err(Error::StaticNotEnabled),
            (Some(_), None) => Err(Error::ChunkNotEnabled),
            (Some(_), Some(ctx)) => match ctx.chunk {
                None => Err(Error::ChunkNotEnabled),
                Some(c) => Ok((ctx, c)),
            },
        }
    }

    /// `entry` worked on as `task`.
    pub open spec fn started(
        self,
        device: Device,
        task: TaskVal,
        entry: Result<Entry, Refused>,
        buffers: Seq<Buf>,
    ) -> Outcome {
        match entry {
            Err(s) => self.refused(s.error, s.bufs, buffers),
            Ok(e) => self.drive(
                device,
                task,
                e.mode,
                e.plis,
                0,
                Flow { x: e.x, bufs: e.bufs, buffers, kv: self.kv@, shared: Shared::none() },
            ),
        }
    }

    /// One chunk step.
    pub open spec fn chunk_step_job(self, device: Device, bufs: Bufs, buffers: Seq<Buf>) -> Outcome {
        match self.chunk_state() {
            Err(e) => self.refused(e, bufs, buffers),
            Ok((ctx, c)) => self.started(
                device,
                TaskVal::ChunkStep(ctx, c),
                self.enter_dev(device, ctx, c, bufs),
                buffers,
            ),
        }
    }

    /// One full prefill chunk that reads only device state: the body of a
    /// captured graph. Rotary rows and masks follow the position, all layers
    /// run, and the position advances by the chunk size. Ends with the hidden
    /// states of the chunk and the logits of its last row.
    pub fn prefill_chunk_step(&mut self, t: &mut Tape) -> (r: Result<Progress, Error>)
        requires
            old(self).wf(),
            old(self).chunk_state() matches Ok((ctx, c)) ==> c.chunk > 0,
        ensures
            final(t).grew(*old(t)),
            final(self).same_but_kv(*old(self)),
            final(self).gave(
                r,
                *final(t),
                old(self).chunk_step_job(old(t).on(), old(t).bufs(), old(t).buffers()),
            ),
    {
        let (ctx, cctx) = self.chunk_context()?;
        let entered = self.begin_dev(t, ctx, cctx)?;
        self.work(t, Task::ChunkStep { ctx, cctx }, entered, SharedKvStates::none(), 0)
    }

    /// Feeds the ids of the next chunk, between replays.
    pub fn feed_chunk_ids(&mut self, t: &mut Tape, ids: &Vec<u32>) -> (r: Result<(), Error>)
        requires
            old(self).wf(),
            old(self).chunk_state() is Ok,
        ensures
            *final(self) == *old(self),
            final(t).wrote(*old(t)),
            ended(
                r,
                old(t).bufs(),
                final(t).bufs(),
                Self::fed(
                    old(t).on(),
                    old(t).bufs(),
                    old(self).static_ctx->0.chunk->0,
                    ids@,
                ),
            ),
    {
        let (_ctx, cctx) = self.chunk_context()?;
        Self::feed(t, cctx, copy_ids(ids))
    }

    /// A prefill of no tokens: the position is pinned to zero, and there are no
    /// logits.
    pub open spec fn nothing_to_do(
        self,
        device: Device,
        ctx: StaticCtx,
        bufs: Bufs,
        buffers: Seq<Buf>,
    ) -> Outcome {
        match u32_effect(device, bufs, ctx.pos, 0) {
            Err(e) => self.refused(e, bufs, buffers),
            Ok(b) => self.refused(Error::EmptyPrompt, b, buffers),
        }
    }

    /// A prefill in padded chunks.
    pub open spec fn graph_job(
        self,
        device: Device,
        ids: Seq<u32>,
        bufs: Bufs,
        buffers: Seq<Buf>,
    ) -> Outcome {
        match self.chunk_state() {
            Err(e) => self.refused(e, bufs, buffers),
            Ok((ctx, c)) => {
                let padded = padded_ids(ids, c.chunk);
                let chunks = chunk_count(ids.len() as int, c.chunk as int) as usize;
                if chunks == 0 {
                    self.nothing_to_do(device, ctx, bufs, buffers)
                } else {
                    self.started(
                        device,
                        TaskVal::Graph {
                            ctx,
                            cctx: c,
                            padded,
                            at: 0,
                            chunks,
                            total: ids.len() as usize,
                        },
                        self.enter_fed(device, ctx, c, chunk_ids(padded, c.chunk, 0), bufs),
                        buffers,
                    )
                }
            },
        }
    }

    /// Chunked prefill by steps that read only device state: the prompt is
    /// padded to whole chunks, the ids are fed between steps, and at the end
    /// the position is pinned to the real length, so that padded rows fall
    /// outside every later mask. Ends with the logits of the last real row.
    pub fn prefill_static_graph(&mut self, t: &mut Tape, input_ids: &Vec<u32>) -> (r: Result<
        Progress,
        Error,
    >)
        requires
            old(self).wf(),
            old(self).chunk_state() matches Ok((ctx, c)) ==> c.chunk > 0 && input_ids.len()
                + c.chunk <= usize::MAX,
        ensures
            final(t).grew(*old(t)),
            final(self).same_but_kv(*old(self)),
            final(self).gave(
                r,
                *final(t),
                old(self).graph_job(old(t).on(), input_ids@, old(t).bufs(), old(t).buffers()),
            ),
    {
        let (ctx, cctx) = self.chunk_context()?;
        let chunk: usize = cctx.chunk;
        let total: usize = input_ids.len();
        proof {
            lemma_chunk_count(total as int, chunk as int);
        }
        let chunks: usize = if total % chunk == 0 { total / chunk } else { total / chunk + 1 };
        let mut padded = copy_ids(input_ids);
        while padded.len() < chunks * chunk
            invariant
                total == input_ids.len(),
                chunks * chunk <= usize::MAX,
                total <= padded.len() <= chunks * chunk,
                padded@ == input_ids@ + Seq::new(
                    (padded.len() - total) as nat,
                    |i: int| 0u32,
                ),
            decreases chunks * chunk - padded.len(),
        {
            padded.push(0);
            assert(padded@ =~= input_ids@ + Seq::new(
                (padded.len() - total) as nat,
                |i: int| 0u32,
            ));
        }
        assert(padded@ == padded_ids(input_ids@, chunk));
        if chunks == 0 {
            write_u32(t, ctx.pos, 0)?;
            return Err(Error::EmptyPrompt);
        }
        proof {
            assert(chunk <= chunks * chunk) by (nonlinear_arith)
                requires
                    chunks >= 1,
            ;
        }
        let entered = self.begin_fed(t, ctx, cctx, &padded, 0)?;
        let task = Task::Graph { ctx, cctx, padded, at: 0, chunks, total };
        self.work(t, task, entered, SharedKvStates::none(), 0)
    }

    /// A prefill in chunks of at most `chunk` tokens, once the static path is
    /// ready.
    pub open spec fn chunked_job(
        self,
        device: Device,
        ids: Val,
        chunk: usize,
        bufs: Bufs,
        buffers: Seq<Buf>,
    ) -> Outcome {
        if ids.shape.rank != 2 {
            self.refused(
                Error::UnexpectedRank { expected: 2, got: ids.shape.rank },
                bufs,
                buffers,
            )
        } else {
            match self.static_ctx {
                None => self.refused(Error::StaticNotEnabled, bufs, buffers),
                Some(ctx) => {
                    let total = ids.shape.d1;
                    if total == 0 {
                        self.nothing_to_do(device, ctx, bufs, buffers)
                    } else {
                        self.started(
                            device,
                            TaskVal::Chunked { ctx, ids, chunk, pos: 0, total },
                            self.enter_chunk(ctx, ids, chunk, 0, total, bufs),
                            buffers,
                        )
                    }
                },
            }
        }
    }

    /// Chunked static prefill: the whole prompt goes through the static buffers
    /// in chunks with batched attention, the position ends at the prompt length,
    /// and the job ends with the logits of the last position.
    pub fn prefill_static_chunked(&mut self, t: &mut Tape, input_ids: Tensor, chunk: usize) -> (r:
        Result<Progress, Error>)
        requires
            old(self).wf(),
            old(t).has(input_ids),
            chunk > 0,
            chunk_len(chunk, 0, input_ids.shape.d1) * chunk_len(chunk, 0, input_ids.shape.d1)
                <= usize::MAX,
        ensures
            final(t).grew(*old(t)),
            final(self).same_but_kv(old(self).ready(old(t).buffers())),
            final(self).gave(
                r,
                *final(t),
                old(self).ready(old(t).buffers()).chunked_job(
                    old(t).on(),
                    input_ids@,
                    chunk,
                    old(self).ready_bufs(old(t).buffers(), old(t).bufs()),
                    old(self).ready_buffers(old(t).buffers()),
                ),
            ),
    {
        self.make_ready(t);
        let (_b, total) = input_ids.dims2()?;
        let ctx = self.context()?;
        if total == 0 {
            write_u32(t, ctx.pos, 0)?;
            return Err(Error::EmptyPrompt);
        }
        let entered = self.begin_chunk(t, ctx, input_ids, chunk, 0, total)?;
        let task = Task::Chunked { ctx, ids: input_ids, chunk, pos: 0, total };
        self.work(t, task, entered, SharedKvStates::none(), 0)
    }

    /// One decode step, once the static path is ready.
    pub open spec fn step_job(
        self,
        device: Device,
        ids: Val,
        bufs: Bufs,
        buffers: Seq<Buf>,
    ) -> Outcome {
        let xs = self.embedded(ids);
        match self.per_layer_input(ids, xs) {
            Err(e) => self.refused(e, bufs, buffers),
            Ok(plis) => match self.static_ctx {
                None => self.refused(Error::StaticNotEnabled, bufs, buffers),
                Some(ctx) => match ctx.refreshed(device, bufs) {
                    Err(s) => self.refused(s.error, s.bufs, buffers),
                    Ok(b) => self.started(
                        device,
                        TaskVal::Step(ctx),
                        Ok(Entry { mode: ModeVal::Step(ctx), plis, x: xs, bufs: b }),
                        buffers,
                    ),
                },
            },
        }
    }

    /// One-token decode step on the preallocated buffers. All dependence on the
    /// position is on the device, so the whole step can be replayed as a graph;
    /// the position advances at its end.
    pub fn forward_static(&mut self, t: &mut Tape, input_ids: Tensor) -> (r: Result<Progress, Error>)
        requires
            old(self).wf(),
            old(t).has(input_ids),
        ensures
            final(t).grew(*old(t)),
            final(self).same_but_kv(old(self).ready(old(t).buffers())),
            final(self).gave(
                r,
                *final(t),
                old(self).ready(old(t).buffers()).step_job(
                    old(t).on(),
                    input_ids@,
                    old(self).ready_bufs(old(t).buffers(), old(t).bufs()),
                    old(self).ready_buffers(old(t).buffers()),
                ),
            ),
    {
        self.make_ready(t);
        let xs = self.embed_tokens(t, input_ids);
        let plis = self.per_layer_inputs(t, input_ids, xs)?;
        let ctx = self.context()?;
        ctx.refresh_masks(t)?;
        let entered = Entered { mode: Mode::Step { ctx }, plis, xs };
        self.work(t, Task::Step { ctx }, entered, SharedKvStates::none(), 0)
    }

    pub open spec fn reset_effect(self, device: Device, bufs: Bufs) -> Result<Bufs, Error> {
        match self.static_ctx {
            Some(ctx) => u32_effect(device, bufs, ctx.pos, 0),
            None => Ok(bufs),
        }
    }

    /// Rewinds the static context to position zero, between requests and never
    /// inside a captured graph.
    pub fn reset_static(&mut self, t: &mut Tape) -> (r: Result<(), Error>)
        ensures
            *final(self) == *old(self),
            final(t).wrote(*old(t)),
            ended(
                r,
                old(t).bufs(),
                final(t).bufs(),
                old(self).reset_effect(old(t).on(), old(t).bufs()),
            ),
    {
        match self.static_ctx {
            Some(ctx) => ctx.reset(t),
            None => Ok(()),
        }
    }

    /// Contents with the first `n` caches cleared.
    pub open spec fn cleared(kv: Seq<LayerKv>, bufs: Bufs, n: int) -> Bufs
        decreases n,
    {
        if n <= 0 {
            bufs
        } else {
            kv[n - 1].cache.bufs_cleared(Self::cleared(kv, bufs, n - 1))
        }
    }

    /// Forgets everything: all caches, and the static position as far as it can
    /// be rewound.
    pub fn clear_kv_cache(&mut self, t: &mut Tape)
        requires
            old(self).wf(),
        ensures
            final(self).wf(),
            final(self).same_but_kv(*old(self)),
            forall|i: int|
                0 <= i < old(self).kv.len() ==> #[trigger] final(self).kv[i] == (LayerKv {
                    cache: KvCache { len: 0, ..old(self).kv[i].cache },
                    statics: old(self).kv[i].statics,
                }),
            final(t).wrote(*old(t)),
            ({
                let b = Self::cleared(old(self).kv@, old(t).bufs(), old(self).kv.len() as int);
                final(t).bufs() == (match old(self).reset_effect(old(t).on(), b) {
                    Ok(after) => after,
                    Err(_) => b,
                })
            }),
    {
        let mut i: usize = 0;
        while i < self.kv.len()
            invariant
                i <= self.kv.len(),
                self.wf(),
                self.same_but_kv(*old(self)),
                t.wrote(*old(t)),
                t.bufs() == Self::cleared(old(self).kv@, old(t).bufs(), i as int),
                forall|j: int|
                    0 <= j < i ==> #[trigger] self.kv[j] == (LayerKv {
                        cache: KvCache { len: 0, ..old(self).kv[j].cache },
                        statics: old(self).kv[j].statics,
                    }),
                forall|j: int| i <= j < self.kv.len() ==> #[trigger] self.kv[j] == old(self).kv[j],
            decreases self.kv.len() - i,
        {
            DecoderLayer::clear_kv_cache(t, &mut self.kv[i]);
            i += 1;
        }
        let _reset = self.reset_static(t);
    }
}

fn copy_ids(ids: &Vec<u32>) -> (r: Vec<u32>)
    ensures
        r@ == ids@,
{
    let mut r: Vec<u32> = Vec::new();
    let mut i: usize = 0;
    while i < ids.len()
        invariant
            i <= ids.len(),
            r@ == ids@.take(i as int),
        decreases ids.len() - i,
    {
        r.push(ids[i]);
        assert(r@ =~= ids@.take(i + 1));
        i += 1;
    }
    assert(r@ =~= ids@);
    r
}

/// What follows a run does not depend on what the layers keep.
proof fn lemma_same_next(
    a: TextModel,
    b: TextModel,
    device: Device,
    task: TaskVal,
    x: Val,
    bufs: Bufs,
)
    requires
        a.same_but_kv(b),
    ensures
        a.next(device, task, x, bufs) == b.next(device, task, x, bufs),
{
    reveal(TextModel::next);
}

/// A run depends on the layers only.
proof fn lemma_same_run(
    a: TextModel,
    b: TextModel,
    device: Device,
    mode: ModeVal,
    plis: Option<Val>,
    i: int,
    f: Flow,
)
    requires
        a.layers == b.layers,
    ensures
        a.run(device, mode, plis, i, f) == b.run(device, mode, plis, i, f),
    decreases a.layers.len() - i,
{
    if 0 <= i < a.layers.len() {
        let layer = a.layers[i];
        if let Ok(h) = layer.halfway(device, mode, f.x, f.kv[i], f.buffers, f.bufs, f.shared) {
            if !layer.host_routed() {
                if let Ok(y) = layer.finished(
                    device,
                    h.residual,
                    h.mlp_out,
                    h.probs,
                    Seq::empty(),
                    slice_of(plis, i),
                ) {
                    lemma_same_run(
                        a,
                        b,
                        device,
                        mode,
                        plis,
                        i + 1,
                        Flow {
                            x: y,
                            bufs: h.bufs,
                            buffers: h.buffers,
                            kv: f.kv.update(i, h.kv),
                            shared: h.shared,
                        },
                    );
                }
            }
        }
    }
}

/// The ids of padded chunk `at`.
pub open spec fn chunk_ids(padded: Seq<u32>, chunk: usize, at: usize) -> Seq<u32> {
    padded.subrange(at * chunk, at * chunk + chunk)
}

/// What a layer's output is multiplied by, given what the checkpoint stores.
pub open spec fn scalar_or_one(stored: Option<u64>) -> u64 {
    match stored {
        Some(s) => s,
        None => ONE,
    }
}

/// What was asked for stays asked for.
proof fn lemma_layer_asked_grows(
    layer: DecoderLayer,
    before: Loader,
    l: Loader,
    cfg: Gemma4TextConfig,
    vb: Seq<char>,
    quant: Option<GgmlDType>,
    device: Device,
    i: int,
)
    requires
        TextModel::layer_asked(layer, before, cfg, vb, quant, device, i),
        l.grew(before),
    ensures
        TextModel::layer_asked(layer, l, cfg, vb, quant, device, i),
{
}

/// The second half of a layer keeps the shape of the residual stream.
proof fn lemma_finished_shape(
    layer: DecoderLayer,
    device: Device,
    residual: Val,
    mlp_out: Val,
    probs: Option<Val>,
    plan: Seq<Seq<usize>>,
    pli: Option<Val>,
)
    ensures
        layer.finished(device, residual, mlp_out, probs, plan, pli) matches Ok(y) ==> y.shape
            == residual.shape,
{
    reveal(DecoderLayer::finished);
    reveal(un);
    reveal(bin);
}

/// The output of a projection keeps all but the last extent.
proof fn lemma_proj_shape(p: Proj, x: Val)
    requires
        x.shape.rank == 3,
    ensures
        p.apply(x).shape.rank == 3,
        p.apply(x).shape.d1 == x.shape.d1,
{
    reveal(un);
    reveal(bin);
}

/// Joined heads are one row per position.
proof fn lemma_output_shape(a: Attention, x: Val, b: usize, len: usize)
    ensures
        a.output(x, b, len).shape.rank == 3,
        a.output(x, b, len).shape.d1 == len,
{
    let y = un(
        Op::Reshape(d3(b, len, sat_product(a.num_heads, a.head_dim))),
        un(Op::Transpose(1, 2), x),
    );
    assert(y.shape == d3(b, len, sat_product(a.num_heads, a.head_dim))) by {
        reveal(un);
    }
    lemma_proj_shape(a.o_proj, y);
}

/// A chunk keeps its length through the first half of a layer.
proof fn lemma_keeps_len(
    layer: DecoderLayer,
    device: Device,
    mode: Mode,
    x: Val,
    kv: LayerKv,
    buffers: Seq<Buf>,
    bufs: Bufs,
    shared: Shared,
)
    ensures
        mode is Chunk ==> (layer.halfway(device, mode@, x, kv, buffers, bufs, shared) matches Ok(h)
            ==> h.residual.shape.d1 == x.shape.d1),
{
    if mode is Chunk && layer.halfway(device, mode@, x, kv, buffers, bufs, shared) is Ok {
        reveal(DecoderLayer::halfway);
        let a = layer.self_attn;
        let xn = layer.input_layernorm.apply(x);
        lemma_norm_shape(layer.input_layernorm, x);
        let out = layer.attended(device, mode@, xn, kv, buffers, bufs, shared)->Ok_0.out;
        let len = xn.shape.d1;
        lemma_chunk_out(a, device, xn, mode->Chunk_ctx, mode->Chunk_pos, kv, buffers, bufs, shared);
        lemma_norm_shape(layer.post_attention_layernorm, out);
        reveal(un);
        reveal(bin);
        reveal(tri);
    }
}

proof fn lemma_chunk_out(
    a: Attention,
    device: Device,
    x: Val,
    ctx: StaticCtx,
    pos: usize,
    kv: LayerKv,
    buffers: Seq<Buf>,
    bufs: Bufs,
    shared: Shared,
)
    ensures
        a.chunk_pass(device, x, ctx, pos, kv, buffers, bufs, shared) matches Ok(o) ==> o.out.shape.d1
            == x.shape.d1 && o.out.shape.rank == 3,
{
    let len = x.shape.d1;
    let q = a.rotary().at_offset(a.query(x, 1, len), pos, len);
    let window = if a.is_sliding { Some(ctx.sliding_window) } else { None };
    let mask = decoder_mask(1, len, pos, window, x.dtype);
    assert forall|k: Val, v: Val|
        #![trigger a.prefix_mixed(q, k, v, mask, len, sat_sum(pos, len))]
        {
            let o = a.prefix_mixed(q, k, v, mask, len, sat_sum(pos, len));
            o.shape.d1 == len && o.shape.rank == 3
        } by {
        lemma_prefix_shape(a, q, k, v, mask, len, sat_sum(pos, len));
    }
}

proof fn lemma_prefix_shape(
    a: Attention,
    q: Val,
    k: Val,
    v: Val,
    mask: Val,
    len: usize,
    klen: usize,
)
    ensures
        a.prefix_mixed(q, k, v, mask, len, klen).shape.d1 == len,
        a.prefix_mixed(q, k, v, mask, len, klen).shape.rank == 3,
{
    let first = Op::Narrow { dim: 1, start: 0, len: klen };
    let k = un(Op::RepeatKv(a.num_kv_groups), un(Op::Unsqueeze(0), un(first, k)));
    let v = un(Op::RepeatKv(a.num_kv_groups), un(Op::Unsqueeze(0), un(first, v)));
    let scores = bin(Op::BroadcastAdd, bin(Op::MatMul, q, un(Op::Transpose(2, 3), k)), mask);
    lemma_output_shape(a, bin(Op::MatMul, un(Op::SoftmaxLast, scores), v), 1, len);
}

} // verus!
