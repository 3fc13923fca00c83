use vstd::prelude::*;

use crate::dtype::{DType, Device};
use crate::error::Error;
use crate::fused::lemma_contiguous;
use crate::gemma4::config::Gemma4TextConfig;
use crate::gemma4::context::{zeroed, LayerKv, Shared, SharedKvStates, StaticCtx};
use crate::gemma4::norm::{v_norm, v_normed, RmsNorm, RotaryEmbedding};
use crate::kv_cache::{KvBufs, KvCache};
use crate::loader::{fitted, pp, Loader, Proj, VarPath};
use crate::masks::{decoder_mask, prepare_decoder_attention_mask};
use crate::quant::GgmlDType;
use crate::shape::{d2, d3, d4, sat_product, sat_sum, saturating_product, saturating_sum};
use crate::static_decode::{
    kv_write, kv_write_chunk, kv_write_chunk_at, kv_write_effect, linked, rows_at_effect,
    rows_effect, Refused,
};
use crate::tape::{bin, held, tri, un, Buf, Bufs, Op, Tape, Tensor, Val};

verus! {

/// Grouped-query attention of one layer. Layers that reuse the keys and values
/// of an earlier one have no projections for them.
#[derive(Clone, Copy, PartialEq, Eq, Structural, Debug)]
pub struct Attention {
    pub q_proj: Proj,
    pub k_proj: Option<Proj>,
    pub v_proj: Option<Proj>,
    pub o_proj: Proj,
    pub q_norm: RmsNorm,
    pub k_norm: Option<RmsNorm>,
    pub num_heads: usize,
    pub num_kv_heads: usize,
    pub num_kv_groups: usize,
    pub head_dim: usize,
    pub rms_norm_eps: u64,
    pub is_sliding: bool,
    pub is_kv_shared: bool,
    pub store_full_length_kv: bool,
    pub rotary_emb_global: RotaryEmbedding,
    pub rotary_emb_local: RotaryEmbedding,
    pub use_flash_attn: bool,
}

/// What a pass through a layer's attention leaves behind.
pub struct AttnOut {
    pub out: Val,
    pub bufs: Bufs,
    pub buffers: Seq<Buf>,
    pub kv: LayerKv,
    pub shared: Shared,
}

/// Why a pass stopped in a layer, and what it leaves behind.
pub struct Stop {
    pub error: Error,
    pub bufs: Bufs,
    pub buffers: Seq<Buf>,
    pub kv: LayerKv,
    pub shared: Shared,
}

impl Attention {
    /// A layer with keys and values of its own can make them.
    pub open spec fn wf(self) -> bool {
        !self.is_kv_shared ==> self.k_proj is Some && self.k_norm is Some
    }

    pub open spec fn rotary(self) -> RotaryEmbedding {
        if self.is_sliding { self.rotary_emb_local } else { self.rotary_emb_global }
    }

    fn rotary_emb(&self) -> (r: RotaryEmbedding)
        ensures
            r == self.rotary(),
    {
        if self.is_sliding { self.rotary_emb_local } else { self.rotary_emb_global }
    }

    /// Was asked of `l` as the configuration says for this layer.
    pub open spec fn asked(
        self,
        l: Loader,
        cfg: Gemma4TextConfig,
        layer: int,
        vb: Seq<char>,
        quant: Option<GgmlDType>,
    ) -> bool {
        let hidden = cfg.hidden_size;
        let head_dim = cfg.attn_head_dim(layer);
        let q_width = sat_product(cfg.num_attention_heads, head_dim);
        let kv_width = sat_product(cfg.attn_kv_heads(layer), head_dim);
        let bias = cfg.attention_bias;
        let k_eq_v = cfg.attention_k_eq_v && !cfg.sliding(layer);
        let wide = fitted(hidden, quant);
        &&& self.q_proj.asked(l, hidden, q_width, bias, pp(vb, "q_proj"@), wide)
        &&& self.o_proj.asked(l, q_width, hidden, bias, pp(vb, "o_proj"@), fitted(q_width, quant))
        &&& self.q_norm.asked(l, head_dim, cfg.rms_norm_eps, pp(vb, "q_norm"@))
        &&& self.k_proj is Some <==> !cfg.shared(layer)
        &&& self.k_norm is Some <==> !cfg.shared(layer)
        &&& self.v_proj is Some <==> !cfg.shared(layer) && !k_eq_v
        &&& self.k_proj matches Some(p) ==> p.asked(
            l,
            hidden,
            kv_width,
            bias,
            pp(vb, "k_proj"@),
            wide,
        )
        &&& self.v_proj matches Some(p) ==> p.asked(
            l,
            hidden,
            kv_width,
            bias,
            pp(vb, "v_proj"@),
            wide,
        )
        &&& self.k_norm matches Some(n) ==> n.asked(
            l,
            head_dim,
            cfg.rms_norm_eps,
            pp(vb, "k_norm"@),
        )
        &&& self.num_heads == cfg.num_attention_heads
        &&& self.num_kv_heads == cfg.attn_kv_heads(layer)
        &&& self.num_kv_groups == cfg.num_attention_heads / cfg.attn_kv_heads(layer)
        &&& self.head_dim == head_dim
        &&& self.rms_norm_eps == cfg.rms_norm_eps
        &&& self.is_sliding == cfg.sliding(layer)
        &&& self.is_kv_shared == cfg.shared(layer)
        &&& self.store_full_length_kv == cfg.stores(layer)
        &&& self.use_flash_attn == cfg.use_flash_attn
    }

    /// How many tensors a layer's attention is. One that shares states has no
    /// keys and values of its own; where keys stand in for values, there is one
    /// projection for both.
    pub open spec fn tensors(cfg: Gemma4TextConfig, layer: int) -> int {
        let p = Proj::tensors(cfg.attention_bias);
        let own = if cfg.shared(layer) {
            0
        } else if cfg.attention_k_eq_v && !cfg.sliding(layer) {
            p + 1
        } else {
            2 * p + 1
        };
        2 * p + 1 + own
    }

    /// Asks for the weights of a layer. The cache of a full-attention layer
    /// holds at most `max_context` positions.
    pub fn new(
        l: &mut Loader,
        rotary_emb_global: RotaryEmbedding,
        rotary_emb_local: RotaryEmbedding,
        cfg: &Gemma4TextConfig,
        layer_idx: usize,
        vb: &VarPath,
        quant: Option<GgmlDType>,
        max_context: Option<usize>,
    ) -> (r: (Attention, LayerKv))
        requires
            cfg.valid(),
            layer_idx < cfg.num_hidden_layers,
        ensures
            final(l).grew(*old(l)),
            final(l).added(*old(l), Self::tensors(*cfg, layer_idx as int)),
            r.0.asked(*final(l), *cfg, layer_idx as int, vb@, quant),
            r.0.wf(),
            r.0.rotary_emb_global == rotary_emb_global,
            r.0.rotary_emb_local == rotary_emb_local,
            r.1 == (LayerKv {
                cache: KvCache::new(
                    cfg.cache_capacity(layer_idx as int, max_context),
                    cfg.sliding(layer_idx as int),
                ),
                statics: None,
            }),
    {
        let hidden_sz: usize = cfg.hidden_size;
        let num_heads: usize = cfg.num_attention_heads;
        let bias = cfg.attention_bias;
        let is_sliding = cfg.is_sliding(layer_idx);
        let (head_dim, num_kv_heads) = cfg.geometry(layer_idx);
        let num_kv_groups: usize = num_heads / num_kv_heads;
        let is_kv_shared = cfg.is_kv_shared(layer_idx);
        let store_full_length_kv = cfg.stores_kv(layer_idx);
        let k_eq_v = cfg.attention_k_eq_v && !is_sliding;
        let q_width: usize = saturating_product(num_heads, head_dim);
        let kv_width: usize = saturating_product(num_kv_heads, head_dim);
        let eps: u64 = cfg.rms_norm_eps;

        let q_proj = Proj::new(l, hidden_sz, q_width, bias, &vb.pp("q_proj"), quant);
        let (k_proj, v_proj, k_norm) = if is_kv_shared {
            (None, None, None)
        } else {
            let v_proj = if k_eq_v {
                None
            } else {
                Some(Proj::new(l, hidden_sz, kv_width, bias, &vb.pp("v_proj"), quant))
            };
            let k_proj = Proj::new(l, hidden_sz, kv_width, bias, &vb.pp("k_proj"), quant);
            (Some(k_proj), v_proj, Some(RmsNorm::new(l, head_dim, eps, &vb.pp("k_norm"))))
        };
        let o_proj = Proj::new(l, q_width, hidden_sz, bias, &vb.pp("o_proj"), quant);
        let q_norm = RmsNorm::new(l, head_dim, eps, &vb.pp("q_norm"));

        let cache = KvCache::new(cfg.max_cache(layer_idx, max_context), is_sliding);
        let attn = Attention {
            q_proj,
            k_proj,
            v_proj,
            o_proj,
            q_norm,
            k_norm,
            num_heads,
            num_kv_heads,
            num_kv_groups,
            head_dim,
            rms_norm_eps: eps,
            is_sliding,
            is_kv_shared,
            store_full_length_kv,
            rotary_emb_global,
            rotary_emb_local,
            use_flash_attn: cfg.use_flash_attn,
        };
        (attn, LayerKv { cache, statics: None })
    }

    /// `x` split into `n` heads: `[b, n, len, head_dim]`.
    pub open spec fn heads(self, x: Val, n: usize, b: usize, len: usize) -> Val {
        un(Op::Transpose(1, 2), un(Op::Reshape(d4(b, len, n, self.head_dim)), x))
    }

    fn split_heads(&self, t: &mut Tape, x: Tensor, n: usize, b: usize, len: usize) -> (r: Tensor)
        requires
            old(t).has(x),
        ensures
            final(t).computed(*old(t)),
            final(t).has(r),
            r@ == self.heads(x@, n, b, len),
    {
        let y = t.un(Op::Reshape(d4(b, len, n, self.head_dim)), x);
        t.un(Op::Transpose(1, 2), y)
    }

    /// Normalized queries, before rotation.
    pub open spec fn query(self, x: Val, b: usize, len: usize) -> Val {
        self.q_norm.apply(self.heads(self.q_proj.apply(x), self.num_heads, b, len))
    }

    pub open spec fn key_raw(self, x: Val, b: usize, len: usize) -> Val {
        self.heads(self.k_proj->0.apply(x), self.num_kv_heads, b, len)
    }

    /// Normalized keys, before rotation.
    pub open spec fn key(self, x: Val, b: usize, len: usize) -> Val {
        self.k_norm->0.apply(self.key_raw(x, b, len))
    }

    /// Values. Where there is no projection for them, they come from the keys
    /// as projected.
    pub open spec fn value(self, x: Val, b: usize, len: usize) -> Val {
        v_normed(
            match self.v_proj {
                Some(p) => self.heads(p.apply(x), self.num_kv_heads, b, len),
                None => self.key_raw(x, b, len),
            },
            self.rms_norm_eps,
        )
    }

    fn queries(&self, t: &mut Tape, x: Tensor, b: usize, len: usize) -> (q: Tensor)
        requires
            old(t).has(x),
        ensures
            final(t).computed(*old(t)),
            final(t).has(q),
            q@ == self.query(x@, b, len),
    {
        let q = self.q_proj.forward(t, x);
        let q = self.split_heads(t, q, self.num_heads, b, len);
        self.q_norm.forward(t, q)
    }

    fn keys_values(&self, t: &mut Tape, x: Tensor, b: usize, len: usize) -> (r: (Tensor, Tensor))
        requires
            old(t).has(x),
            self.k_proj is Some,
            self.k_norm is Some,
        ensures
            final(t).computed(*old(t)),
            final(t).has(r.0),
            final(t).has(r.1),
            r.0@ == self.key(x@, b, len),
            r.1@ == self.value(x@, b, len),
    {
        let k_proj = self.k_proj.unwrap();
        let k_norm = self.k_norm.unwrap();
        let k_raw = k_proj.forward(t, x);
        let k_raw = self.split_heads(t, k_raw, self.num_kv_heads, b, len);
        let v_raw = match self.v_proj {
            Some(v_proj) => {
                let v = v_proj.forward(t, x);
                self.split_heads(t, v, self.num_kv_heads, b, len)
            },
            None => k_raw,
        };
        let k = k_norm.forward(t, k_raw);
        let v = v_norm(t, v_raw, self.rms_norm_eps);
        (k, v)
    }

    /// Attention of `q` over `k` and `v`, and the output projection. The scale
    /// is one: the learned query norm absorbs it.
    pub open spec fn mixed(
        self,
        q: Val,
        k: Val,
        v: Val,
        mask: Option<Val>,
        b: usize,
        len: usize,
    ) -> Val {
        let k = un(Op::RepeatKv(self.num_kv_groups), k);
        let v = un(Op::RepeatKv(self.num_kv_groups), v);
        let attn = if self.use_flash_attn {
            un(
                Op::Transpose(1, 2),
                tri(
                    Op::FlashAttn { causal: mask is Some },
                    un(Op::Transpose(1, 2), q),
                    un(Op::Transpose(1, 2), k),
                    un(Op::Transpose(1, 2), v),
                ),
            )
        } else {
            let scores = bin(Op::MatMul, q, un(Op::Transpose(2, 3), k));
            let scores = match mask {
                Some(m) => bin(Op::BroadcastAdd, scores, m),
                None => scores,
            };
            bin(Op::MatMul, un(Op::SoftmaxLast, scores), v)
        };
        self.output(attn, b, len)
    }

    /// `[b, heads, len, head_dim]` joined and projected.
    pub open spec fn output(self, attn: Val, b: usize, len: usize) -> Val {
        self.o_proj.apply(
            un(
                Op::Reshape(d3(b, len, sat_product(self.num_heads, self.head_dim))),
                un(Op::Transpose(1, 2), attn),
            ),
        )
    }

    fn project_out(&self, t: &mut Tape, attn: Tensor, b: usize, len: usize) -> (r: Tensor)
        requires
            old(t).has(attn),
        ensures
            final(t).computed(*old(t)),
            final(t).has(r),
            r@ == self.output(attn@, b, len),
    {
        let y = t.un(Op::Transpose(1, 2), attn);
        let width: usize = saturating_product(self.num_heads, self.head_dim);
        let y = t.un(Op::Reshape(d3(b, len, width)), y);
        self.o_proj.forward(t, y)
    }

    fn mix(
        &self,
        t: &mut Tape,
        q: Tensor,
        k: Tensor,
        v: Tensor,
        mask: Option<Tensor>,
        b: usize,
        len: usize,
    ) -> (r: Tensor)
        requires
            old(t).has(q),
            old(t).has(k),
            old(t).has(v),
            old(t).has_opt(mask),
        ensures
            final(t).computed(*old(t)),
            final(t).has(r),
            r@ == self.mixed(
                q@,
                k@,
                v@,
                match mask {
                    Some(m) => Some(m@),
                    None => None,
                },
                b,
                len,
            ),
    {
        let k = t.un(Op::RepeatKv(self.num_kv_groups), k);
        let v = t.un(Op::RepeatKv(self.num_kv_groups), v);
        proof {
            lemma_contiguous(k@);
            lemma_contiguous(v@);
            lemma_contiguous(q@);
        }
        let k = t.un(Op::Contiguous, k);
        let v = t.un(Op::Contiguous, v);
        let attn = if self.use_flash_attn {
            let q = t.un(Op::Transpose(1, 2), q);
            let k = t.un(Op::Transpose(1, 2), k);
            let v = t.un(Op::Transpose(1, 2), v);
            let o = t.tri(Op::FlashAttn { causal: mask.is_some() }, q, k, v);
            t.un(Op::Transpose(1, 2), o)
        } else {
            let q = t.un(Op::Contiguous, q);
            let kt = t.un(Op::Transpose(2, 3), k);
            let scores = t.bin(Op::MatMul, q, kt);
            let scores = match mask {
                None => scores,
                Some(m) => t.bin(Op::BroadcastAdd, scores, m),
            };
            let probs = t.un(Op::SoftmaxLast, scores);
            t.bin(Op::MatMul, probs, v)
        };
        self.project_out(t, attn, b, len)
    }

    /// A pass over `x` (`[b, len, hidden]`) after `offset` cached positions.
    pub open spec fn pass(
        self,
        x: Val,
        mask: Option<Val>,
        sliding_mask: Option<Val>,
        offset: usize,
        kv: LayerKv,
        buffers: Seq<Buf>,
        bufs: Bufs,
        shared: Shared,
    ) -> Result<AttnOut, Stop> {
        if x.shape.rank != 3 {
            let error = Error::UnexpectedRank { expected: 3, got: x.shape.rank };
            Err(Stop { error, bufs, buffers, kv, shared })
        } else if let Some(error) = self.rotary().beyond(offset, x.shape.d1) {
            Err(Stop { error, bufs, buffers, kv, shared })
        } else {
            let (b, len) = (x.shape.d0, x.shape.d1);
            let m = if self.is_sliding { sliding_mask } else { mask };
            let q = self.rotary().at_offset(self.query(x, b, len), offset, len);
            if self.is_kv_shared {
                match shared.slot(self.is_sliding) {
                    None => Err(
                        Stop { error: Error::SharedKvMissing, bufs, buffers, kv, shared },
                    ),
                    Some((k, v)) => Ok(
                        AttnOut { out: self.mixed(q, k, v, m, b, len), bufs, buffers, kv, shared },
                    ),
                }
            } else {
                let k = self.rotary().at_offset(self.key(x, b, len), offset, len);
                let v = self.value(x, b, len);
                let (ka, va) = kv.cache.views(buffers, bufs, k, v);
                Ok(
                    AttnOut {
                        out: self.mixed(q, ka, va, m, b, len),
                        bufs: kv.cache.bufs_after(buffers, bufs, k, v),
                        buffers: kv.cache.buffers_after(buffers, k, v),
                        kv: LayerKv { cache: kv.cache.after(buffers, k, v), statics: kv.statics },
                        shared: if self.store_full_length_kv {
                            shared.with(self.is_sliding, ka, va)
                        } else {
                            shared
                        },
                    },
                )
            }
        }
    }

    /// `r` and the state after the call are what `want` says.
    pub open spec fn gave(
        r: Result<Tensor, Error>,
        t: Tape,
        kv: LayerKv,
        shared: SharedKvStates,
        want: Result<AttnOut, Stop>,
    ) -> bool {
        match want {
            Err(s) => {
                &&& r == Err::<Tensor, Error>(s.error)
                &&& t.bufs() == s.bufs
                &&& t.buffers() == s.buffers
                &&& kv == s.kv
                &&& shared@ == s.shared
                &&& shared.on(t)
            },
            Ok(o) => {
                &&& r is Ok
                &&& t.has(r->Ok_0)
                &&& r->Ok_0@ == o.out
                &&& t.bufs() == o.bufs
                &&& t.buffers() == o.buffers
                &&& kv == o.kv
                &&& shared@ == o.shared
                &&& shared.on(t)
            },
        }
    }

    pub fn forward(
        &self,
        t: &mut Tape,
        kv: &mut LayerKv,
        xs: Tensor,
        attention_mask: Option<Tensor>,
        sliding_attention_mask: Option<Tensor>,
        seqlen_offset: usize,
        shared_kv: &mut SharedKvStates,
    ) -> (r: Result<Tensor, Error>)
        requires
            self.wf(),
            old(t).has(xs),
            old(t).has_opt(attention_mask),
            old(t).has_opt(sliding_attention_mask),
            old(shared_kv).on(*old(t)),
        ensures
            final(t).grew(*old(t)),
            Self::gave(
                r,
                *final(t),
                *final(kv),
                *final(shared_kv),
                self.pass(
                    xs@,
                    match attention_mask {
                        Some(m) => Some(m@),
                        None => None,
                    },
                    match sliding_attention_mask {
                        Some(m) => Some(m@),
                        None => None,
                    },
                    seqlen_offset,
                    *old(kv),
                    old(t).buffers(),
                    old(t).bufs(),
                    old(shared_kv)@,
                ),
            ),
    {
        let (b_sz, q_len, _hidden) = xs.dims3()?;
        let rotary = self.rotary_emb();
        let q = self.queries(t, xs, b_sz, q_len);
        let (q, k, v) = if self.is_kv_shared {
            let (q, _q) = rotary.apply_rotary_emb_qkv(t, q, q, seqlen_offset, q_len)?;
            match shared_kv.slot(self.is_sliding) {
                None => {
                    return Err(Error::SharedKvMissing);
                },
                Some((k, v)) => (q, k, v),
            }
        } else {
            let (k, v) = self.keys_values(t, xs, b_sz, q_len);
            let (q, k) = rotary.apply_rotary_emb_qkv(t, q, k, seqlen_offset, q_len)?;
            let (k, v) = kv.cache.append(t, k, v);
            if self.store_full_length_kv {
                shared_kv.store(self.is_sliding, k, v);
            }
            (q, k, v)
        };
        let mask = if self.is_sliding { sliding_attention_mask } else { attention_mask };
        Ok(self.mix(t, q, k, v, mask, b_sz, q_len))
    }

    /// The static buffers of a layer; new ones follow those in `buffers`.
    pub open spec fn static_pair(
        self,
        kv: LayerKv,
        buffers: Seq<Buf>,
        max_seq: usize,
        dtype: DType,
    ) -> KvBufs {
        match kv.statics {
            Some(p) => p,
            None => {
                let shape = d3(self.num_kv_heads, max_seq, self.head_dim);
                KvBufs {
                    k: Buf { id: buffers.len() as usize, shape, dtype },
                    v: Buf { id: (buffers.len() + 1) as usize, shape, dtype },
                }
            },
        }
    }

    pub open spec fn static_buffers(kv: LayerKv, buffers: Seq<Buf>, p: KvBufs) -> Seq<Buf> {
        if kv.statics is Some {
            buffers
        } else {
            buffers.push(p.k).push(p.v)
        }
    }

    pub open spec fn static_ready(kv: LayerKv, bufs: Bufs, p: KvBufs) -> Bufs {
        if kv.statics is Some {
            bufs
        } else {
            zeroed(zeroed(bufs, p.k), p.v)
        }
    }

    fn ensure_static(&self, t: &mut Tape, kv: &mut LayerKv, max_seq: usize, dtype: DType) -> (p:
        KvBufs)
        ensures
            final(t).grew(*old(t)),
            p == self.static_pair(*old(kv), old(t).buffers(), max_seq, dtype),
            final(t).buffers() == Self::static_buffers(*old(kv), old(t).buffers(), p),
            final(t).bufs() == Self::static_ready(*old(kv), old(t).bufs(), p),
            *final(kv) == (LayerKv { cache: old(kv).cache, statics: Some(p) }),
    {
        match kv.statics {
            Some(p) => p,
            None => {
                let shape = d3(self.num_kv_heads, max_seq, self.head_dim);
                let k = t.allocate(shape, dtype);
                let v = t.allocate(shape, dtype);
                let p = KvBufs { k, v };
                kv.statics = Some(p);
                p
            },
        }
    }

    /// The part of a static pass that every form of it shares: `q` attends, by
    /// `mix`, over the buffers that the layer wrote or that it reads from an
    /// earlier one.
    pub open spec fn over_static(
        self,
        written: Result<Bufs, Refused>,
        kv: LayerKv,
        buffers: Seq<Buf>,
        bufs: Bufs,
        p: KvBufs,
        shared: Shared,
        mix: spec_fn(Val, Val, Bufs) -> Val,
    ) -> Result<AttnOut, Stop> {
        if self.is_kv_shared {
            match shared.slot(self.is_sliding) {
                None => Err(Stop { error: Error::SharedKvMissing, bufs, buffers, kv, shared }),
                Some((k, v)) => Ok(AttnOut { out: mix(k, v, bufs), bufs, buffers, kv, shared }),
            }
        } else {
            match written {
                Err(s) => Err(
                    Stop {
                        error: s.error,
                        bufs: s.bufs,
                        buffers: Self::static_buffers(kv, buffers, p),
                        kv: LayerKv { cache: kv.cache, statics: Some(p) },
                        shared,
                    },
                ),
                Ok(after) => {
                    let (k, v) = (held(after, p.k), held(after, p.v));
                    Ok(
                        AttnOut {
                            out: mix(k, v, after),
                            bufs: after,
                            buffers: Self::static_buffers(kv, buffers, p),
                            kv: LayerKv { cache: kv.cache, statics: Some(p) },
                            shared: if self.store_full_length_kv {
                                shared.with(self.is_sliding, k, v)
                            } else {
                                shared
                            },
                        },
                    )
                },
            }
        }
    }

    /// Attention of a chunk over the first `klen` rows of the buffers.
    pub open spec fn prefix_mixed(
        self,
        q: Val,
        k: Val,
        v: Val,
        mask: Val,
        len: usize,
        klen: usize,
    ) -> Val {
        let first = Op::Narrow { dim: 1, start: 0, len: klen };
        let k = un(Op::RepeatKv(self.num_kv_groups), un(Op::Unsqueeze(0), un(first, k)));
        let v = un(Op::RepeatKv(self.num_kv_groups), un(Op::Unsqueeze(0), un(first, v)));
        let scores = bin(
            Op::BroadcastAdd,
            bin(Op::MatMul, q, un(Op::Transpose(2, 3), k)),
            mask,
        );
        self.output(bin(Op::MatMul, un(Op::SoftmaxLast, scores), v), 1, len)
    }

    /// A chunk `x` (`[1, len, hidden]`) written to rows `[pos, pos + len)`.
    pub open spec fn chunk_pass(
        self,
        device: Device,
        x: Val,
        ctx: StaticCtx,
        pos: usize,
        kv: LayerKv,
        buffers: Seq<Buf>,
        bufs: Bufs,
        shared: Shared,
    ) -> Result<AttnOut, Stop> {
        if x.shape.rank != 3 {
            let error = Error::UnexpectedRank { expected: 3, got: x.shape.rank };
            Err(Stop { error, bufs, buffers, kv, shared })
        } else if let Some(error) = self.rotary().beyond(pos, x.shape.d1) {
            Err(Stop { error, bufs, buffers, kv, shared })
        } else {
            let len = x.shape.d1;
            let rows = Op::Reshape(d3(self.num_kv_heads, len, self.head_dim));
            let q = self.rotary().at_offset(self.query(x, 1, len), pos, len);
            let k = un(rows, self.rotary().at_offset(self.key(x, 1, len), pos, len));
            let v = un(rows, self.value(x, 1, len));
            let p = self.static_pair(kv, buffers, ctx.max_seq, x.dtype);
            let ready = Self::static_ready(kv, bufs, p);
            let written = match linked(ready, rows_effect(device, ready, p.k, k, pos)) {
                Err(s) => Err(s),
                Ok(b) => linked(b, rows_effect(device, b, p.v, v, pos)),
            };
            let window = if self.is_sliding { Some(ctx.sliding_window) } else { None };
            let mask = decoder_mask(1, len, pos, window, x.dtype);
            self.over_static(
                written,
                kv,
                buffers,
                bufs,
                p,
                shared,
                |k: Val, v: Val, b: Bufs|
                    self.prefix_mixed(q, k, v, mask, len, sat_sum(pos, len)),
            )
        }
    }

    /// Chunked prefill into the static buffers: writes keys and values at rows
    /// `[pos, pos + len)` and attends over the written prefix. The position is a
    /// host value, so this cannot be replayed; decode steps use
    /// [`Self::forward_static`].
    pub fn forward_static_chunk(
        &self,
        t: &mut Tape,
        kv: &mut LayerKv,
        xs: Tensor,
        ctx: &StaticCtx,
        shared_kv: &mut SharedKvStates,
        pos: usize,
    ) -> (r: Result<Tensor, Error>)
        requires
            self.wf(),
            old(t).has(xs),
            old(shared_kv).on(*old(t)),
            xs.shape.d1 * xs.shape.d1 <= usize::MAX,
        ensures
            final(t).grew(*old(t)),
            Self::gave(
                r,
                *final(t),
                *final(kv),
                *final(shared_kv),
                self.chunk_pass(
                    old(t).on(),
                    xs@,
                    *ctx,
                    pos,
                    *old(kv),
                    old(t).buffers(),
                    old(t).bufs(),
                    old(shared_kv)@,
                ),
            ),
    {
        let (_b_sz, t_len, _hidden) = xs.dims3()?;
        let klen: usize = saturating_sum(pos, t_len);
        let rotary = self.rotary_emb();
        let q = self.queries(t, xs, 1, t_len);
        let (k, v, q) = if self.is_kv_shared {
            let (q, _q) = rotary.apply_rotary_emb_qkv(t, q, q, pos, t_len)?;
            match shared_kv.slot(self.is_sliding) {
                None => {
                    return Err(Error::SharedKvMissing);
                },
                Some((k, v)) => (k, v, q),
            }
        } else {
            let (k, v) = self.keys_values(t, xs, 1, t_len);
            let (q, k) = rotary.apply_rotary_emb_qkv(t, q, k, pos, t_len)?;
            let p = self.ensure_static(t, kv, ctx.max_seq, xs.dtype);
            let rows = Op::Reshape(d3(self.num_kv_heads, t_len, self.head_dim));
            let k = t.un(rows, k);
            let v = t.un(rows, v);
            proof {
                lemma_contiguous(k@);
                lemma_contiguous(v@);
            }
            let kc = t.un(Op::Contiguous, k);
            let vc = t.un(Op::Contiguous, v);
            kv_write_chunk(t, p.k, kc, pos)?;
            kv_write_chunk(t, p.v, vc, pos)?;
            let k = t.read(p.k);
            let v = t.read(p.v);
            if self.store_full_length_kv {
                shared_kv.store(self.is_sliding, k, v);
            }
            (k, v, q)
        };
        let first = Op::Narrow { dim: 1, start: 0, len: klen };
        let k = t.un(first, k);
        let k = t.un(Op::Unsqueeze(0), k);
        let k = t.un(Op::RepeatKv(self.num_kv_groups), k);
        let v = t.un(first, v);
        let v = t.un(Op::Unsqueeze(0), v);
        let v = t.un(Op::RepeatKv(self.num_kv_groups), v);
        proof {
            lemma_contiguous(k@);
            lemma_contiguous(v@);
            lemma_contiguous(q@);
        }
        let k = t.un(Op::Contiguous, k);
        let v = t.un(Op::Contiguous, v);
        let window = if self.is_sliding { Some(ctx.sliding_window) } else { None };
        let mask = prepare_decoder_attention_mask(t, 1, t_len, pos, window, xs.dtype);
        let q = t.un(Op::Contiguous, q);
        let kt = t.un(Op::Transpose(2, 3), k);
        let attn = t.bin(Op::MatMul, q, kt);
        let attn = t.bin(Op::BroadcastAdd, attn, mask);
        let attn = t.un(Op::SoftmaxLast, attn);
        let out = t.bin(Op::MatMul, attn, v);
        Ok(self.project_out(t, out, 1, t_len))
    }

    /// Attention of a chunk over the whole extent of the buffers.
    pub open spec fn extent_mixed(
        self,
        q: Val,
        k: Val,
        v: Val,
        mask: Val,
        len: usize,
        max_seq: usize,
    ) -> Val {
        let k = un(Op::RepeatKv(self.num_kv_groups), un(Op::Unsqueeze(0), k));
        let v = un(Op::RepeatKv(self.num_kv_groups), un(Op::Unsqueeze(0), v));
        let scores = bin(
            Op::BroadcastAdd,
            un(Op::ToDType(DType::F32), bin(Op::MatMul, q, un(Op::Transpose(2, 3), k))),
            un(Op::Reshape(d4(1, 1, len, max_seq)), mask),
        );
        let probs = un(Op::ToDType(q.dtype), un(Op::SoftmaxLast, scores));
        self.output(bin(Op::MatMul, probs, v), 1, len)
    }

    /// A chunk whose every positional input is in a buffer.
    pub open spec fn chunk_dev_pass(
        self,
        device: Device,
        x: Val,
        ctx: StaticCtx,
        kv: LayerKv,
        buffers: Seq<Buf>,
        bufs: Bufs,
        shared: Shared,
    ) -> Result<AttnOut, Stop> {
        if x.shape.rank != 3 {
            let error = Error::UnexpectedRank { expected: 3, got: x.shape.rank };
            Err(Stop { error, bufs, buffers, kv, shared })
        } else if ctx.chunk is None {
            Err(Stop { error: Error::ChunkNotEnabled, bufs, buffers, kv, shared })
        } else {
            let len = x.shape.d1;
            let c = ctx.chunk->0;
            let idx = held(bufs, c.rope_idx);
            let rows = Op::Reshape(d3(self.num_kv_heads, len, self.head_dim));
            let q = self.rotary().at_rows(self.query(x, 1, len), idx);
            let k = un(rows, self.rotary().at_rows(self.key(x, 1, len), idx));
            let v = un(rows, self.value(x, 1, len));
            let p = self.static_pair(kv, buffers, ctx.max_seq, x.dtype);
            let ready = Self::static_ready(kv, bufs, p);
            let written = match linked(ready, rows_at_effect(device, ready, p.k, k, ctx.pos)) {
                Err(s) => Err(s),
                Ok(b) => linked(b, rows_at_effect(device, b, p.v, v, ctx.pos)),
            };
            let mask = if self.is_sliding { c.mask_sliding } else { c.mask_global };
            self.over_static(
                written,
                kv,
                buffers,
                bufs,
                p,
                shared,
                |k: Val, v: Val, b: Bufs|
                    self.extent_mixed(q, k, v, held(b, mask), len, ctx.max_seq),
            )
        }
    }

    /// Chunk attention with every positional input (rotary rows, masks, row
    /// offset) in buffers and all shapes fixed at the chunk size, so that it can
    /// be replayed inside a captured graph.
    pub fn forward_static_chunk_dev(
        &self,
        t: &mut Tape,
        kv: &mut LayerKv,
        xs: Tensor,
        ctx: &StaticCtx,
        shared_kv: &mut SharedKvStates,
    ) -> (r: Result<Tensor, Error>)
        requires
            self.wf(),
            old(t).has(xs),
            old(shared_kv).on(*old(t)),
        ensures
            final(t).grew(*old(t)),
            Self::gave(
                r,
                *final(t),
                *final(kv),
                *final(shared_kv),
                self.chunk_dev_pass(
                    old(t).on(),
                    xs@,
                    *ctx,
                    *old(kv),
                    old(t).buffers(),
                    old(t).bufs(),
                    old(shared_kv)@,
                ),
            ),
    {
        let (_b_sz, t_len, _hidden) = xs.dims3()?;
        let cctx = match ctx.chunk {
            None => {
                return Err(Error::ChunkNotEnabled);
            },
            Some(c) => c,
        };
        let rotary = self.rotary_emb();
        let idx = t.read(cctx.rope_idx);
        let q = self.queries(t, xs, 1, t_len);
        let (k, v, q) = if self.is_kv_shared {
            let q = rotary.rope_gather(t, q, idx);
            match shared_kv.slot(self.is_sliding) {
                None => {
                    return Err(Error::SharedKvMissing);
                },
                Some((k, v)) => (k, v, q),
            }
        } else {
            let (k, v) = self.keys_values(t, xs, 1, t_len);
            let q = rotary.rope_gather(t, q, idx);
            let k = rotary.rope_gather(t, k, idx);
            let p = self.ensure_static(t, kv, ctx.max_seq, xs.dtype);
            let rows = Op::Reshape(d3(self.num_kv_heads, t_len, self.head_dim));
            let k = t.un(rows, k);
            let v = t.un(rows, v);
            proof {
                lemma_contiguous(k@);
                lemma_contiguous(v@);
            }
            let kc = t.un(Op::Contiguous, k);
            let vc = t.un(Op::Contiguous, v);
            kv_write_chunk_at(t, p.k, kc, ctx.pos)?;
            kv_write_chunk_at(t, p.v, vc, ctx.pos)?;
            let k = t.read(p.k);
            let v = t.read(p.v);
            if self.store_full_length_kv {
                shared_kv.store(self.is_sliding, k, v);
            }
            (k, v, q)
        };
        let k = t.un(Op::Unsqueeze(0), k);
        let k = t.un(Op::RepeatKv(self.num_kv_groups), k);
        let v = t.un(Op::Unsqueeze(0), v);
        let v = t.un(Op::RepeatKv(self.num_kv_groups), v);
        proof {
            lemma_contiguous(k@);
            lemma_contiguous(v@);
            lemma_contiguous(q@);
        }
        let k = t.un(Op::Contiguous, k);
        let v = t.un(Op::Contiguous, v);
        let mask = t.read(if self.is_sliding { cctx.mask_sliding } else { cctx.mask_global });
        let q = t.un(Op::Contiguous, q);
        let kt = t.un(Op::Transpose(2, 3), k);
        let attn = t.bin(Op::MatMul, q, kt);
        let attn = t.un(Op::ToDType(DType::F32), attn);
        let mask = t.un(Op::Reshape(d4(1, 1, t_len, ctx.max_seq)), mask);
        let attn = t.bin(Op::BroadcastAdd, attn, mask);
        let attn = t.un(Op::SoftmaxLast, attn);
        let attn = t.un(Op::ToDType(q.dtype), attn);
        let out = t.bin(Op::MatMul, attn, v);
        Ok(self.project_out(t, out, 1, t_len))
    }

    /// Grouped attention of one token over the whole extent of the buffers.
    pub open spec fn step_mixed(self, q: Val, k: Val, v: Val, mask: Val, max_seq: usize) -> Val {
        let q3 = un(Op::Reshape(d3(self.num_kv_heads, self.num_kv_groups, self.head_dim)), q);
        let scores = bin(
            Op::BroadcastAdd,
            un(Op::ToDType(DType::F32), bin(Op::MatMul, q3, un(Op::Transpose(1, 2), k))),
            un(Op::Reshape(d3(1, 1, max_seq)), mask),
        );
        let probs = un(Op::ToDType(k.dtype), un(Op::SoftmaxLast, scores));
        self.o_proj.apply(
            un(
                Op::Reshape(d3(1, 1, sat_product(self.num_heads, self.head_dim))),
                bin(Op::MatMul, probs, v),
            ),
        )
    }

    /// One token at the position held in the context.
    pub open spec fn step_pass(
        self,
        device: Device,
        x: Val,
        ctx: StaticCtx,
        kv: LayerKv,
        buffers: Seq<Buf>,
        bufs: Bufs,
        shared: Shared,
    ) -> Result<AttnOut, Stop> {
        if x.shape.rank != 3 {
            let error = Error::UnexpectedRank { expected: 3, got: x.shape.rank };
            Err(Stop { error, bufs, buffers, kv, shared })
        } else {
            let at = held(bufs, ctx.pos);
            let row = Op::Reshape(d2(self.num_kv_heads, self.head_dim));
            let q = self.rotary().at_rows(self.query(x, 1, 1), at);
            let k = un(row, self.rotary().at_rows(self.key(x, 1, 1), at));
            let v = un(row, self.value(x, 1, 1));
            let p = self.static_pair(kv, buffers, ctx.max_seq, x.dtype);
            let ready = Self::static_ready(kv, bufs, p);
            let written = linked(
                ready,
                kv_write_effect(device, ready, p.k, p.v, k, v, ctx.pos),
            );
            let mask = if self.is_sliding { ctx.mask_sliding } else { ctx.mask_global };
            self.over_static(
                written,
                kv,
                buffers,
                bufs,
                p,
                shared,
                |k: Val, v: Val, b: Bufs| self.step_mixed(q, k, v, held(b, mask), ctx.max_seq),
            )
        }
    }

    /// One-token attention over the full preallocated extent, at the position
    /// that the context holds on the device: shape- and address-static, so it
    /// can be replayed inside a captured graph.
    pub fn forward_static(
        &self,
        t: &mut Tape,
        kv: &mut LayerKv,
        xs: Tensor,
        ctx: &StaticCtx,
        shared_kv: &mut SharedKvStates,
    ) -> (r: Result<Tensor, Error>)
        requires
            self.wf(),
            old(t).has(xs),
            old(shared_kv).on(*old(t)),
        ensures
            final(t).grew(*old(t)),
            Self::gave(
                r,
                *final(t),
                *final(kv),
                *final(shared_kv),
                self.step_pass(
                    old(t).on(),
                    xs@,
                    *ctx,
                    *old(kv),
                    old(t).buffers(),
                    old(t).bufs(),
                    old(shared_kv)@,
                ),
            ),
    {
        let (_b_sz, _q_len, _hidden) = xs.dims3()?;
        let rotary = self.rotary_emb();
        let at = t.read(ctx.pos);
        let q = self.queries(t, xs, 1, 1);
        let (k, v, q) = if self.is_kv_shared {
            let q = rotary.rope_gather(t, q, at);
            match shared_kv.slot(self.is_sliding) {
                None => {
                    return Err(Error::SharedKvMissing);
                },
                Some((k, v)) => (k, v, q),
            }
        } else {
            let (k, v) = self.keys_values(t, xs, 1, 1);
            let q = rotary.rope_gather(t, q, at);
            let k = rotary.rope_gather(t, k, at);
            let p = self.ensure_static(t, kv, ctx.max_seq, xs.dtype);
            let row = Op::Reshape(d2(self.num_kv_heads, self.head_dim));
            let k = t.un(row, k);
            let v = t.un(row, v);
            proof {
                lemma_contiguous(k@);
                lemma_contiguous(v@);
            }
            let kc = t.un(Op::Contiguous, k);
            let vc = t.un(Op::Contiguous, v);
            kv_write(t, p.k, p.v, kc, vc, ctx.pos)?;
            let k = t.read(p.k);
            let v = t.read(p.v);
            if self.store_full_length_kv {
                shared_kv.store(self.is_sliding, k, v);
            }
            (k, v, q)
        };
        let grouped = Op::Reshape(d3(self.num_kv_heads, self.num_kv_groups, self.head_dim));
        let q3 = t.un(grouped, q);
        let kt = t.un(Op::Transpose(1, 2), k);
        proof {
            lemma_contiguous(q3@);
            lemma_contiguous(kt@);
            lemma_contiguous(v@);
        }
        let q3 = t.un(Op::Contiguous, q3);
        let kt = t.un(Op::Contiguous, kt);
        let scores = t.bin(Op::MatMul, q3, kt);
        let mask = t.read(if self.is_sliding { ctx.mask_sliding } else { ctx.mask_global });
        let scores = t.un(Op::ToDType(DType::F32), scores);
        let mask = t.un(Op::Reshape(d3(1, 1, ctx.max_seq)), mask);
        let scores = t.bin(Op::BroadcastAdd, scores, mask);
        let probs = t.un(Op::SoftmaxLast, scores);
        let probs = t.un(Op::ToDType(k.dtype), probs);
        let v = t.un(Op::Contiguous, v);
        let out = t.bin(Op::MatMul, probs, v);
        let width: usize = saturating_product(self.num_heads, self.head_dim);
        let out = t.un(Op::Reshape(d3(1, 1, width)), out);
        Ok(self.o_proj.forward(t, out))
    }
}

} // verus!
