//! Text decoder: plain attention, routed experts from some layer on.
use vstd::prelude::*;

use crate::dtype::DType;
use crate::error::Error;
use crate::fused::lemma_contiguous;
use crate::kv_cache::CatCache;
use crate::loader::{decimal, plain, pp, Loader, Proj, VarPath};
use crate::routing::{law_plan_unique, plan_of, plan_within, rows_view};
use crate::shape::{d1, d2};
use crate::tape::{
    bin, opt_val, plan_view, un, Buf, Bufs, Op, RoutingPlan, Scalar, Tape, Tensor, Val, Weight,
};
use crate::unlimited_ocr::attention::{Attention, Rotary};
use crate::unlimited_ocr::config::UnlimitedOcrTextConfig;
use crate::unlimited_ocr::moe::{all_ordered, folded_rows, Mlp, MoE};

verus! {

/// Feed-forward block of a layer.
#[derive(Debug)]
pub enum FeedForward {
    Dense(Mlp),
    Moe(MoE),
}

/// Root mean square norm with a learned weight.
#[derive(Clone, Copy, PartialEq, Eq, Structural, Debug)]
pub struct RmsNorm {
    pub weight: Weight,
    /// Bits of a double.
    pub eps: u64,
}

impl RmsNorm {
    pub open spec fn apply(self, x: Val) -> Val {
        un(Op::RmsNorm(self.weight, Scalar::F32(self.eps)), x)
    }

    pub open spec fn asked(self, l: Loader, size: usize, eps: u64, vb: Seq<char>) -> bool {
        &&& l.gives(self.weight, plain(pp(vb, "weight"@), d1(size), l.reads()))
        &&& self.eps == eps
    }

    pub fn new(l: &mut Loader, size: usize, eps: u64, vb: &VarPath) -> (r: RmsNorm)
        ensures
            final(l).grew(*old(l)),
            final(l).added(*old(l), 1),
            r.asked(*final(l), size, eps, vb@),
    {
        let weight = l.get(vb, "weight", d1(size));
        RmsNorm { weight, eps }
    }

    pub fn forward(&self, t: &mut Tape, x: Tensor) -> (r: Tensor)
        requires
            old(t).has(x),
        ensures
            final(t).computed(*old(t)),
            final(t).has(r),
            r@ == self.apply(x@),
            r.shape == x.shape,
    {
        let y = t.un(Op::RmsNorm(self.weight, Scalar::F32(self.eps)), x);
        assert(y@.shape == x@.shape) by {
            reveal(un);
        }
        y
    }
}

#[derive(Debug)]
pub struct DecoderLayer {
    pub self_attn: Attention,
    pub ffn: FeedForward,
    pub input_layernorm: RmsNorm,
    pub post_attention_layernorm: RmsNorm,
}

/// A layer up to the point where experts are chosen.
#[derive(Clone, Copy)]
pub struct Halfway {
    pub x: Tensor,
    pub normed: Tensor,
    /// Scores of the experts, where the host has to choose.
    pub scores: Option<Tensor>,
}

/// [`Halfway`] as values, with the cache it leaves.
pub struct HalfwayOut {
    pub x: Val,
    pub normed: Val,
    pub scores: Option<Val>,
    pub bufs: Bufs,
    pub buffers: Seq<Buf>,
    pub cache: CatCache,
}

impl Halfway {
    pub open spec fn on(self, t: Tape) -> bool {
        t.has(self.x) && t.has(self.normed) && t.has_opt(self.scores)
    }
}

impl DecoderLayer {
    /// The host chooses the experts of this layer.
    pub open spec fn host_routed(self) -> bool {
        self.ffn is Moe
    }

    pub open spec fn asked(
        self,
        l: Loader,
        cfg: UnlimitedOcrTextConfig,
        layer_idx: int,
        vb: Seq<char>,
    ) -> bool {
        let (h, eps) = (cfg.hidden_size, cfg.rms_norm_eps);
        &&& self.self_attn.asked(l, cfg, pp(vb, "self_attn"@))
        &&& match self.ffn {
            FeedForward::Moe(m) => cfg.routed(layer_idx) && m.asked(l, cfg, pp(vb, "mlp"@)),
            FeedForward::Dense(m) => !cfg.routed(layer_idx) && m.asked(
                l,
                h,
                cfg.intermediate_size,
                pp(vb, "mlp"@),
            ),
        }
        &&& self.input_layernorm.asked(l, h, eps, pp(vb, "input_layernorm"@))
        &&& self.post_attention_layernorm.asked(l, h, eps, pp(vb, "post_attention_layernorm"@))
    }

    /// How many tensors a layer is.
    pub open spec fn tensors(cfg: UnlimitedOcrTextConfig, layer_idx: int) -> int {
        6 + (if cfg.routed(layer_idx) { 3 * cfg.n_routed_experts + 4 } else { 3 })
    }

    pub fn new(l: &mut Loader, cfg: &UnlimitedOcrTextConfig, layer_idx: usize, vb: &VarPath) -> (r:
        DecoderLayer)
        ensures
            final(l).grew(*old(l)),
            final(l).added(*old(l), Self::tensors(*cfg, layer_idx as int)),
            r.asked(*final(l), *cfg, layer_idx as int, vb@),
    {
        let (h, eps) = (cfg.hidden_size, cfg.rms_norm_eps);
        let ffn = if layer_idx >= cfg.first_k_dense_replace {
            FeedForward::Moe(MoE::new(l, cfg, &vb.pp("mlp")))
        } else {
            FeedForward::Dense(Mlp::new(l, h, cfg.intermediate_size, &vb.pp("mlp")))
        };
        let self_attn = Attention::new(l, cfg, &vb.pp("self_attn"));
        let input_layernorm = RmsNorm::new(l, h, eps, &vb.pp("input_layernorm"));
        let post_attention_layernorm = RmsNorm::new(
            l,
            h,
            eps,
            &vb.pp("post_attention_layernorm"),
        );
        DecoderLayer { self_attn, ffn, input_layernorm, post_attention_layernorm }
    }

    /// The layer on `x` up to the choice of experts. One that is refused changes
    /// nothing.
    #[verifier::opaque]
    pub open spec fn halfway(
        self,
        rotary: Rotary,
        pos: usize,
        x: Val,
        cache: CatCache,
        buffers: Seq<Buf>,
        bufs: Bufs,
    ) -> Result<HalfwayOut, Error> {
        match self.self_attn.pass(
            self.input_layernorm.apply(x),
            rotary,
            pos,
            cache,
            buffers,
            bufs,
        ) {
            Err(e) => Err(e),
            Ok(a) => {
                let x = bin(Op::Add, x, a.out);
                let normed = self.post_attention_layernorm.apply(x);
                let scores = match self.ffn {
                    FeedForward::Dense(_) => None,
                    FeedForward::Moe(m) => Some(m.scores(normed)),
                };
                Ok(
                    HalfwayOut {
                        x,
                        normed,
                        scores,
                        bufs: a.bufs,
                        buffers: a.buffers,
                        cache: a.cache,
                    },
                )
            },
        }
    }

    /// Records the layer up to the choice of experts.
    pub fn begin(&self, t: &mut Tape, cache: &mut CatCache, x: Tensor, rotary: &Rotary, pos: usize) -> (r:
        Result<Halfway, Error>)
        requires
            old(cache).wf(),
            Attention::mask_fits(*old(cache), x.shape.d1),
            old(t).has(x),
        ensures
            final(t).grew(*old(t)),
            final(cache).wf(),
            match self.halfway(*rotary, pos, x@, *old(cache), old(t).buffers(), old(t).bufs()) {
                Err(e) => {
                    &&& r == Err::<Halfway, Error>(e)
                    &&& final(t).computed(*old(t))
                    &&& *final(cache) == *old(cache)
                },
                Ok(o) => {
                    &&& r is Ok
                    &&& r->Ok_0.on(*final(t))
                    &&& r->Ok_0.x@ == o.x
                    &&& r->Ok_0.normed@ == o.normed
                    &&& opt_val(r->Ok_0.scores) == o.scores
                    &&& r->Ok_0.scores is Some <==> self.host_routed()
                    &&& r->Ok_0.x.shape == x.shape
                    &&& r->Ok_0.normed.shape == x.shape
                    &&& x.shape.rank == 3
                    &&& final(t).bufs() == o.bufs
                    &&& final(t).buffers() == o.buffers
                    &&& *final(cache) == o.cache
                },
            },
    {
        reveal(DecoderLayer::halfway);
        let normed = self.input_layernorm.forward(t, x);
        let h = self.self_attn.forward(t, cache, normed, rotary, pos)?;
        let y = t.bin(Op::Add, x, h);
        assert(y@.shape == x@.shape) by {
            reveal(bin);
        }
        let normed = self.post_attention_layernorm.forward(t, y);
        let scores = match &self.ffn {
            FeedForward::Dense(_) => None,
            FeedForward::Moe(m) => Some(m.score(t, normed)?),
        };
        Ok(Halfway { x: y, normed, scores })
    }

    /// The rest of the layer, with the experts in `plan` where the host chose.
    pub open spec fn finished(
        self,
        x: Val,
        normed: Val,
        scores: Option<Val>,
        plan: Seq<Seq<usize>>,
    ) -> Val {
        bin(
            Op::Add,
            x,
            match self.ffn {
                FeedForward::Dense(m) => m.apply(normed),
                FeedForward::Moe(m) => m.out(normed, scores->0, plan),
            },
        )
    }

    /// Records the rest of the layer.
    pub fn finish(&self, t: &mut Tape, half: Halfway, plan: RoutingPlan) -> (r: Result<
        Tensor,
        Error,
    >)
        requires
            half.on(*old(t)),
            half.normed.shape.rank == 3,
            self.ffn matches FeedForward::Moe(m) ==> half.scores is Some && plan_within(
                plan_view(plan),
                m.experts.len() as int,
            ),
        ensures
            final(t).computed(*old(t)),
            r is Ok,
            final(t).has(r->Ok_0),
            r->Ok_0@ == self.finished(
                half.x@,
                half.normed@,
                opt_val(half.scores),
                plan_view(plan),
            ),
            r->Ok_0.shape == half.x.shape,
    {
        let f = match &self.ffn {
            FeedForward::Dense(m) => m.forward(t, half.normed),
            FeedForward::Moe(m) => m.forward(t, half.normed, half.scores.unwrap(), plan)?,
        };
        let y = t.bin(Op::Add, half.x, f);
        assert(y@.shape == half.x@.shape) by {
            reveal(bin);
        }
        Ok(y)
    }
}

#[derive(Debug)]
pub struct TextModel {
    pub embed_tokens: Weight,
    pub layers: Vec<DecoderLayer>,
    /// Keys and values of each layer.
    pub caches: Vec<CatCache>,
    pub norm: RmsNorm,
    pub lm_head: Proj,
    pub rotary: Rotary,
    pub dtype: DType,
}

/// A value on its way through the layers, with everything a pass changes.
pub struct Flow {
    pub x: Val,
    pub bufs: Bufs,
    pub buffers: Seq<Buf>,
    pub caches: Seq<CatCache>,
}

/// Why a pass stopped, and what it leaves behind: the layers before the one
/// that stopped it have taken it in.
pub struct Failure {
    pub error: Error,
    pub bufs: Bufs,
    pub buffers: Seq<Buf>,
    pub caches: Seq<CatCache>,
}

/// Where a run through the layers ends.
pub enum Ran {
    Failed(Failure),
    /// At a layer whose experts the host has to choose.
    Paused(int, HalfwayOut, Seq<CatCache>),
    Through(Flow),
}

/// How a pass ends, or where it waits for the host.
pub enum Outcome {
    Failed(Failure),
    Paused(int, HalfwayOut, Seq<CatCache>),
    Done { logits: Val, bufs: Bufs, buffers: Seq<Buf>, caches: Seq<CatCache> },
}

/// A pass that waits until the host has chosen the experts of a layer.
#[derive(Clone, Copy)]
pub struct Pass {
    pub seq: usize,
    pub pos: usize,
    pub layer: usize,
    pub half: Halfway,
}

/// A pass that waits for the host, or has ended.
#[derive(Clone, Copy)]
pub enum Progress {
    /// The scores in `half.scores` are to be read back and handed to
    /// [`TextModel::resume`].
    Route(Pass),
    Done { logits: Tensor },
}

impl TextModel {
    pub open spec fn wf(self) -> bool {
        &&& self.layers.len() == self.caches.len()
        &&& forall|i: int| 0 <= i < self.caches.len() ==> (#[trigger] self.caches[i]).wf()
    }

    /// Only the caches differ.
    pub open spec fn same_but_caches(self, before: TextModel) -> bool {
        &&& self == (TextModel { caches: self.caches, ..before })
        &&& self.caches.len() == before.caches.len()
    }

    /// The mask of a pass over `seq` positions can be written down, in every
    /// layer from `i` on.
    pub open spec fn fits(caches: Seq<CatCache>, seq: usize, i: int) -> bool {
        forall|j: int|
            i <= j < caches.len() ==> Attention::mask_fits(#[trigger] caches[j], seq)
    }

    /// Everything was asked of `l` as the configuration says.
    pub open spec fn asked(self, l: Loader, cfg: UnlimitedOcrTextConfig, vb: Seq<char>) -> bool {
        let root = pp(vb, "model"@);
        let (h, v) = (cfg.hidden_size, cfg.vocab_size);
        &&& l.gives(
            self.embed_tokens,
            plain(pp(pp(root, "embed_tokens"@), "weight"@), d2(v, h), l.reads()),
        )
        &&& self.layers.len() == cfg.num_hidden_layers
        &&& forall|i: int|
            0 <= i < self.layers.len() ==> (#[trigger] self.layers[i]).asked(
                l,
                cfg,
                i,
                pp(pp(root, "layers"@), decimal(i as nat)),
            )
        &&& self.norm.asked(l, h, cfg.rms_norm_eps, pp(root, "norm"@))
        &&& self.lm_head.asked(l, h, v, false, pp(vb, "lm_head"@), None)
        &&& self.rotary.asked(l, cfg)
        &&& self.dtype == l.reads()
    }

    /// How many tensors the first `n` layers are.
    pub open spec fn layer_tensors(cfg: UnlimitedOcrTextConfig, n: int) -> int
        decreases n,
    {
        if n <= 0 {
            0
        } else {
            Self::layer_tensors(cfg, n - 1) + DecoderLayer::tensors(cfg, n - 1)
        }
    }

    /// Asks for the embeddings, the layers, the last norm, the head and the
    /// rotary tables.
    pub fn new(l: &mut Loader, cfg: &UnlimitedOcrTextConfig, vb: &VarPath) -> (r: TextModel)
        ensures
            final(l).grew(*old(l)),
            final(l).added(*old(l), 5 + Self::layer_tensors(*cfg, cfg.num_hidden_layers as int)),
            r.wf(),
            r.asked(*final(l), *cfg, vb@),
            forall|i: int| 0 <= i < r.caches.len() ==> #[trigger] r.caches[i] == CatCache::new(),
    {
        let root = vb.pp("model");
        let (h, vocab) = (cfg.hidden_size, cfg.vocab_size);
        let embed_tokens = l.get(&root.pp("embed_tokens"), "weight", d2(vocab, h));
        let mut layers: Vec<DecoderLayer> = Vec::new();
        let mut caches: Vec<CatCache> = Vec::new();
        let vb_l = root.pp("layers");
        let mut i: usize = 0;
        let ghost rooted = *l;
        while i < cfg.num_hidden_layers
            invariant
                i <= cfg.num_hidden_layers,
                l.grew(rooted),
                l.added(rooted, Self::layer_tensors(*cfg, i as int)),
                layers.len() == i,
                caches.len() == i,
                forall|j: int| 0 <= j < i ==> #[trigger] caches[j] == CatCache::new(),
                forall|j: int|
                    0 <= j < i ==> (#[trigger] layers[j]).asked(
                        *l,
                        *cfg,
                        j,
                        pp(vb_l@, decimal(j as nat)),
                    ),
            decreases cfg.num_hidden_layers - i,
        {
            let ghost before = *l;
            let layer = DecoderLayer::new(l, cfg, i, &vb_l.pp_index(i));
            proof {
                assert forall|j: int| 0 <= j < i implies (#[trigger] layers[j]).asked(
                    *l,
                    *cfg,
                    j,
                    pp(vb_l@, decimal(j as nat)),
                ) by {
                    lemma_layer_grows(
                        layers[j],
                        before,
                        *l,
                        *cfg,
                        j,
                        pp(vb_l@, decimal(j as nat)),
                    );
                }
            }
            layers.push(layer);
            caches.push(CatCache::new());
            i += 1;
        }
        let ghost layered = *l;
        let norm = RmsNorm::new(l, h, cfg.rms_norm_eps, &root.pp("norm"));
        let lm_head = Proj::dense(l, h, vocab, false, &vb.pp("lm_head"));
        let rotary = Rotary::new(l, cfg);
        proof {
            assert forall|j: int| 0 <= j < layers.len() implies (#[trigger] layers[j]).asked(
                *l,
                *cfg,
                j,
                pp(vb_l@, decimal(j as nat)),
            ) by {
                lemma_layer_grows(
                    layers[j],
                    layered,
                    *l,
                    *cfg,
                    j,
                    pp(vb_l@, decimal(j as nat)),
                );
            }
        }
        let dtype = l.dtype();
        TextModel { embed_tokens, layers, caches, norm, lm_head, rotary, dtype }
    }

    /// The layers from `i` on, until the end or a layer whose experts the host
    /// has to choose.
    pub open spec fn run(self, pos: usize, i: int, f: Flow) -> Ran
        decreases self.layers.len() - i,
    {
        if i < 0 || i >= self.layers.len() {
            Ran::Through(f)
        } else {
            let layer = self.layers[i];
            match layer.halfway(self.rotary, pos, f.x, f.caches[i], f.buffers, f.bufs) {
                Err(error) => Ran::Failed(
                    Failure { error, bufs: f.bufs, buffers: f.buffers, caches: f.caches },
                ),
                Ok(h) => {
                    let caches = f.caches.update(i, h.cache);
                    if layer.host_routed() {
                        Ran::Paused(i, h, caches)
                    } else {
                        self.run(
                            pos,
                            i + 1,
                            Flow {
                                x: layer.finished(h.x, h.normed, h.scores, Seq::empty()),
                                bufs: h.bufs,
                                buffers: h.buffers,
                                caches,
                            },
                        )
                    }
                },
            }
        }
    }

    /// Logits of the last of `seq` positions.
    pub open spec fn logits(self, x: Val, seq: usize) -> Val {
        self.lm_head.apply(
            un(Op::Select { dim: 1, index: (seq - 1) as usize }, self.norm.apply(x)),
        )
    }

    /// The whole pass from layer `i` on.
    pub open spec fn drive(self, seq: usize, pos: usize, i: int, f: Flow) -> Outcome {
        match self.run(pos, i, f) {
            Ran::Failed(x) => Outcome::Failed(x),
            Ran::Paused(i, h, caches) => Outcome::Paused(i, h, caches),
            Ran::Through(g) => Outcome::Done {
                logits: self.logits(g.x, seq),
                bufs: g.bufs,
                buffers: g.buffers,
                caches: g.caches,
            },
        }
    }

    /// `p` waits for the experts of a layer of this model, on tape `t`.
    pub open spec fn waits(self, p: Pass, t: Tape) -> bool {
        &&& p.layer < self.layers.len()
        &&& self.layers[p.layer as int].host_routed()
        &&& p.half.on(t)
        &&& p.half.scores is Some
        &&& p.half.normed.shape.rank == 3
        &&& p.seq > 0
        &&& Self::fits(self.caches@, p.half.x.shape.d1, p.layer + 1)
    }

    /// `r` and the state after the call are what `want` says of a pass over
    /// `seq` positions from `pos` on.
    pub open spec fn gave(
        self,
        r: Result<Progress, Error>,
        t: Tape,
        want: Outcome,
        seq: usize,
        pos: usize,
    ) -> bool {
        match want {
            Outcome::Failed(x) => {
                &&& r == Err::<Progress, Error>(x.error)
                &&& t.bufs() == x.bufs
                &&& t.buffers() == x.buffers
                &&& self.caches@ == x.caches
            },
            Outcome::Paused(layer, h, caches) => {
                &&& r matches Ok(Progress::Route(p))
                &&& self.waits(p, t)
                &&& p.seq == seq
                &&& p.pos == pos
                &&& p.layer == layer
                &&& p.half.x@ == h.x
                &&& p.half.normed@ == h.normed
                &&& opt_val(p.half.scores) == h.scores
                &&& t.bufs() == h.bufs
                &&& t.buffers() == h.buffers
                &&& self.caches@ == caches
            },
            Outcome::Done { logits: l, bufs, buffers, caches } => {
                &&& r matches Ok(Progress::Done { logits })
                &&& t.has(logits)
                &&& logits@ == l
                &&& t.bufs() == bufs
                &&& t.buffers() == buffers
                &&& self.caches@ == caches
            },
        }
    }

    fn work(&mut self, t: &mut Tape, x: Tensor, seq: usize, pos: usize, from: usize) -> (r: Result<
        Progress,
        Error,
    >)
        requires
            old(self).wf(),
            from <= old(self).layers.len(),
            old(t).has(x),
            Self::fits(old(self).caches@, x.shape.d1, from as int),
            seq > 0,
        ensures
            final(t).grew(*old(t)),
            final(self).wf(),
            final(self).same_but_caches(*old(self)),
            final(self).gave(
                r,
                *final(t),
                old(self).drive(
                    seq,
                    pos,
                    from as int,
                    Flow {
                        x: x@,
                        bufs: old(t).bufs(),
                        buffers: old(t).buffers(),
                        caches: old(self).caches@,
                    },
                ),
                seq,
                pos,
            ),
    {
        let ghost want = old(self).run(
            pos,
            from as int,
            Flow { x: x@, bufs: t.bufs(), buffers: t.buffers(), caches: self.caches@ },
        );
        let mut cur = x;
        let mut i: usize = from;
        while i < self.layers.len()
            invariant
                from <= i <= self.layers.len(),
                seq > 0,
                self.wf(),
                self.same_but_caches(*old(self)),
                t.grew(*old(t)),
                t.has(cur),
                cur.shape == x.shape,
                Self::fits(self.caches@, x.shape.d1, i as int),
                want == old(self).run(
                    pos,
                    from as int,
                    Flow {
                        x: x@,
                        bufs: old(t).bufs(),
                        buffers: old(t).buffers(),
                        caches: old(self).caches@,
                    },
                ),
                want == old(self).run(
                    pos,
                    i as int,
                    Flow {
                        x: cur@,
                        bufs: t.bufs(),
                        buffers: t.buffers(),
                        caches: self.caches@,
                    },
                ),
            decreases self.layers.len() - i,
        {
            let ghost before = self.caches@;
            let rotary = self.rotary;
            assert(self.caches[i as int].wf());
            assert(Attention::mask_fits(before[i as int], x.shape.d1));
            let begun = self.layers[i].begin(t, &mut self.caches[i], cur, &rotary, pos);
            proof {
                assert(self.caches@ =~= before.update(i as int, self.caches@[i as int]));
                if begun is Err {
                    assert(self.caches@ =~= before);
                }
                assert forall|j: int| i + 1 <= j < self.caches.len() implies Attention::mask_fits(
                    #[trigger] self.caches@[j],
                    x.shape.d1,
                ) by {
                    assert(self.caches@[j] == before[j]);
                }
            }
            let half = begun?;
            if half.scores.is_some() {
                return Ok(Progress::Route(Pass { seq, pos, layer: i, half }));
            }
            let plan: RoutingPlan = Vec::new();
            assert(plan_view(plan) =~= Seq::<Seq<usize>>::empty());
            cur = self.layers[i].finish(t, half, plan)?;
            i += 1;
        }
        let y = self.norm.forward(t, cur);
        let last = t.un(Op::Select { dim: 1, index: seq - 1 }, y);
        proof {
            lemma_contiguous(last@);
        }
        let last = t.un(Op::Contiguous, last);
        let logits = self.lm_head.forward(t, last);
        Ok(Progress::Done { logits })
    }

    /// Embeddings of token numbers.
    pub fn embed(&self, t: &mut Tape, input_ids: Tensor) -> (r: Tensor)
        requires
            old(t).has(input_ids),
        ensures
            final(t).computed(*old(t)),
            final(t).has(r),
            r@ == un(Op::Embedding(self.embed_tokens), input_ids@),
    {
        t.un(Op::Embedding(self.embed_tokens), input_ids)
    }

    /// A pass over embeddings.
    pub open spec fn embeds_job(self, xs: Val, pos: usize, bufs: Bufs, buffers: Seq<Buf>) -> Outcome {
        if xs.shape.rank != 3 {
            let error = Error::UnexpectedRank { expected: 3, got: xs.shape.rank };
            Outcome::Failed(Failure { error, bufs, buffers, caches: self.caches@ })
        } else {
            self.drive(
                xs.shape.d1,
                pos,
                0,
                Flow { x: xs, bufs, buffers, caches: self.caches@ },
            )
        }
    }

    /// Records a pass over embeddings `[b, seq, hidden]`, into which those of
    /// images have been merged. Ends with the logits of the last position.
    pub fn forward_embeds(&mut self, t: &mut Tape, xs: Tensor, pos: usize) -> (r: Result<
        Progress,
        Error,
    >)
        requires
            old(self).wf(),
            old(t).has(xs),
            xs.shape.rank == 3 ==> xs.shape.d1 > 0 && Self::fits(
                old(self).caches@,
                xs.shape.d1,
                0,
            ),
        ensures
            final(t).grew(*old(t)),
            final(self).wf(),
            final(self).same_but_caches(*old(self)),
            final(self).gave(
                r,
                *final(t),
                old(self).embeds_job(xs@, pos, old(t).bufs(), old(t).buffers()),
                xs.shape.d1,
                pos,
            ),
    {
        let (_b, seq, _h) = xs.dims3()?;
        self.work(t, xs, seq, pos, 0)
    }

    /// Records a pass over token numbers `[b, seq]`.
    pub fn forward(&mut self, t: &mut Tape, input_ids: Tensor, pos: usize) -> (r: Result<
        Progress,
        Error,
    >)
        requires
            old(self).wf(),
            old(t).has(input_ids),
            input_ids.shape.rank == 2 ==> input_ids.shape.d1 > 0 && Self::fits(
                old(self).caches@,
                input_ids.shape.d1,
                0,
            ),
        ensures
            final(t).grew(*old(t)),
            final(self).wf(),
            final(self).same_but_caches(*old(self)),
            final(self).gave(
                r,
                *final(t),
                old(self).embeds_job(
                    un(Op::Embedding(old(self).embed_tokens), input_ids@),
                    pos,
                    old(t).bufs(),
                    old(t).buffers(),
                ),
                un(Op::Embedding(old(self).embed_tokens), input_ids@).shape.d1,
                pos,
            ),
    {
        let xs = self.embed(t, input_ids);
        assert(xs@.shape.rank == 3 ==> input_ids.shape.rank == 2 && xs@.shape.d1
            == input_ids.shape.d1) by {
            reveal(un);
        }
        self.forward_embeds(t, xs, pos)
    }

    /// A waiting pass, with the experts in `plan`.
    pub open spec fn resumed(
        self,
        p: Pass,
        plan: Seq<Seq<usize>>,
        bufs: Bufs,
        buffers: Seq<Buf>,
    ) -> Outcome {
        let i = p.layer as int;
        let x = self.layers[i].finished(p.half.x@, p.half.normed@, opt_val(p.half.scores), plan);
        self.drive(p.seq, p.pos, i + 1, Flow { x, bufs, buffers, caches: self.caches@ })
    }

    /// The experts of layer `i`.
    pub open spec fn moe_of(self, i: int) -> MoE {
        self.layers[i].ffn->Moe_0
    }

    /// Goes on with a waiting pass, given the rows of scores that the device
    /// computed, as bits.
    pub fn resume(&mut self, t: &mut Tape, pass: Pass, rows: &Vec<Vec<u32>>) -> (r: Result<
        Progress,
        Error,
    >)
        requires
            old(self).wf(),
            old(self).waits(pass, *old(t)),
            all_ordered(rows_view(*rows)),
        ensures
            final(t).grew(*old(t)),
            final(self).wf(),
            final(self).same_but_caches(*old(self)),
            ({
                let moe = old(self).moe_of(pass.layer as int);
                if !moe.complete(rows_view(*rows)) {
                    &&& r == Err::<Progress, Error>(Error::ShapeMismatch)
                    &&& *final(self) == *old(self)
                    &&& final(t).computed(*old(t))
                } else {
                    final(self).gave(
                        r,
                        *final(t),
                        old(self).resumed(
                            pass,
                            plan_of(folded_rows(rows_view(*rows)), moe.top_k as int),
                            old(t).bufs(),
                            old(t).buffers(),
                        ),
                        pass.seq,
                        pass.pos,
                    )
                }
            }),
    {
        let layer: usize = pass.layer;
        let next = {
            let own = &self.layers[layer];
            let plan = match &own.ffn {
                FeedForward::Moe(moe) => moe.choose_experts(rows)?,
                FeedForward::Dense(_) => Vec::new(),
            };
            proof {
                law_plan_unique(
                    folded_rows(rows_view(*rows)),
                    self.moe_of(layer as int).top_k as int,
                    plan_view(plan),
                );
            }
            own.finish(t, pass.half, plan)?
        };
        self.work(t, next, pass.seq, pass.pos, layer + 1)
    }

    /// Forgets everything.
    pub fn clear_kv_cache(&mut self)
        requires
            old(self).wf(),
        ensures
            final(self).wf(),
            final(self).same_but_caches(*old(self)),
            forall|i: int|
                0 <= i < final(self).caches.len() ==> #[trigger] final(self).caches[i] == (CatCache {
                    bufs: old(self).caches[i].bufs,
                    filled: false,
                }),
    {
        let mut i: usize = 0;
        while i < self.caches.len()
            invariant
                i <= self.caches.len(),
                self.wf(),
                self.same_but_caches(*old(self)),
                forall|j: int|
                    0 <= j < i ==> #[trigger] self.caches[j] == (CatCache {
                        bufs: old(self).caches[j].bufs,
                        filled: false,
                    }),
                forall|j: int|
                    i <= j < self.caches.len() ==> #[trigger] self.caches[j]
                        == old(self).caches[j],
            decreases self.caches.len() - i,
        {
            let mut cache = self.caches[i];
            cache.clear();
            self.caches.set(i, cache);
            i += 1;
        }
    }
}

/// What was asked for stays asked for.
proof fn lemma_layer_grows(
    d: DecoderLayer,
    before: Loader,
    l: Loader,
    cfg: UnlimitedOcrTextConfig,
    i: int,
    vb: Seq<char>,
)
    requires
        d.asked(before, cfg, i, vb),
        l.grew(before),
    ensures
        d.asked(l, cfg, i, vb),
{
}

/// Positions in a cache add up: after a pass each layer holds what it held
/// before and one position for each of `x`.
pub proof fn law_caches_grow(m: TextModel, pos: usize, i: int, f: Flow, j: int)
    requires
        0 <= i <= j < m.layers.len(),
        f.caches.len() == m.layers.len(),
    ensures
        m.run(pos, i, f) matches Ran::Through(g) ==> g.caches.len() == f.caches.len()
            && g.caches[j].filled && g.caches[j].len() == crate::shape::sat_sum(
            f.caches[j].len(),
            f.x.shape.d1,
        ),
    decreases m.layers.len() - i,
{
    let layer = m.layers[i];
    if let Ok(h) = layer.halfway(m.rotary, pos, f.x, f.caches[i], f.buffers, f.bufs) {
        lemma_pass_appends(layer, m.rotary, pos, f.x, f.caches[i], f.buffers, f.bufs);
        if !layer.host_routed() {
            let y = layer.finished(h.x, h.normed, h.scores, Seq::empty());
            assert(y.shape == f.x.shape) by {
                reveal(DecoderLayer::halfway);
                reveal(bin);
            }
            let g = Flow {
                x: y,
                bufs: h.bufs,
                buffers: h.buffers,
                caches: f.caches.update(i, h.cache),
            };
            if i < j {
                law_caches_grow(m, pos, i + 1, g, j);
            } else {
                lemma_earlier_caches_stay(m, pos, i + 1, g, j);
            }
        }
    }
}

proof fn lemma_earlier_caches_stay(m: TextModel, pos: usize, i: int, f: Flow, j: int)
    requires
        0 <= j < i <= m.layers.len(),
        f.caches.len() == m.layers.len(),
    ensures
        m.run(pos, i, f) matches Ran::Through(g) ==> g.caches.len() == f.caches.len()
            && g.caches[j] == f.caches[j],
    decreases m.layers.len() - i,
{
    if i < m.layers.len() {
        let layer = m.layers[i];
        if let Ok(h) = layer.halfway(m.rotary, pos, f.x, f.caches[i], f.buffers, f.bufs) {
            if !layer.host_routed() {
                lemma_earlier_caches_stay(
                    m,
                    pos,
                    i + 1,
                    Flow {
                        x: layer.finished(h.x, h.normed, h.scores, Seq::empty()),
                        bufs: h.bufs,
                        buffers: h.buffers,
                        caches: f.caches.update(i, h.cache),
                    },
                    j,
                );
            }
        }
    }
}

proof fn lemma_pass_appends(
    layer: DecoderLayer,
    rotary: Rotary,
    pos: usize,
    x: Val,
    cache: CatCache,
    buffers: Seq<Buf>,
    bufs: Bufs,
)
    ensures
        layer.halfway(rotary, pos, x, cache, buffers, bufs) matches Ok(h) ==> h.cache.filled
            && h.cache.len() == crate::shape::sat_sum(cache.len(), x.shape.d1),
{
    reveal(DecoderLayer::halfway);
    reveal(un);
    reveal(bin);
    reveal(crate::tape::tri);
}

/// A model that was cleared reads a new sequence as a new model does.
pub proof fn law_clearing_forgets(
    m: TextModel,
    pos: usize,
    i: int,
    x: Val,
    a: (Seq<Buf>, Bufs, Seq<CatCache>),
    b: (Seq<Buf>, Bufs, Seq<CatCache>),
)
    requires
        0 <= i <= m.layers.len(),
        a.2.len() == m.layers.len(),
        b.2.len() == m.layers.len(),
        forall|j: int| i <= j < m.layers.len() ==> !(#[trigger] a.2[j]).filled,
        forall|j: int| i <= j < m.layers.len() ==> #[trigger] b.2[j] == CatCache::new(),
    ensures
        match (
            m.run(pos, i, Flow { x, bufs: a.1, buffers: a.0, caches: a.2 }),
            m.run(pos, i, Flow { x, bufs: b.1, buffers: b.0, caches: b.2 }),
        ) {
            (Ran::Failed(d), Ran::Failed(e)) => d.error == e.error,
            (Ran::Paused(j, p, _), Ran::Paused(k, q, _)) => {
                &&& j == k
                &&& p.x == q.x
                &&& p.normed == q.normed
                &&& p.scores == q.scores
            },
            (Ran::Through(f), Ran::Through(g)) => f.x == g.x,
            _ => false,
        },
    decreases m.layers.len() - i,
{
    if i < m.layers.len() {
        let layer = m.layers[i];
        assert(!a.2[i].filled);
        assert(b.2[i] == CatCache::new());
        let p = layer.halfway(m.rotary, pos, x, a.2[i], a.0, a.1);
        let q = layer.halfway(m.rotary, pos, x, b.2[i], b.0, b.1);
        assert(match (p, q) {
            (Ok(p), Ok(q)) => p.x == q.x && p.normed == q.normed && p.scores == q.scores,
            (Err(d), Err(e)) => d == e,
            _ => false,
        }) by {
            reveal(DecoderLayer::halfway);
        }
        if !layer.host_routed() {
            if let Ok(p) = p {
                if let Ok(q) = q {
                    law_clearing_forgets(
                        m,
                        pos,
                        i + 1,
                        layer.finished(p.x, p.normed, p.scores, Seq::empty()),
                        (p.buffers, p.bufs, a.2.update(i, p.cache)),
                        (q.buffers, q.bufs, b.2.update(i, q.cache)),
                    );
                }
            }
        }
    }
}

} // verus!
