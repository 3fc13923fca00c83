use vstd::prelude::*;

use crate::dtype::{DType, Device};
use crate::error::Error;
use crate::fused::lemma_contiguous;
use crate::kv_cache::{CatCache, KvBufs};
use crate::loader::{pp, Loader, Proj, VarPath};
use crate::masks::{causal, causal_mask};
use crate::quant::GgmlDType;
use crate::qwen3_5::config::Qwen35TextConfig;
use crate::qwen3_5::norm::{qproj, suited, RmsNormPlus1, Rotary};
use crate::shape::{d2, d3, d4, d5, sat_product, sat_sum, saturating_product};
use crate::static_decode::{
    kv_write, kv_write_chunk, kv_write_effect, linked, rows_effect, Refused,
};
use crate::tape::{bin, held, tri, un, Buf, Bufs, Op, Scalar, Tape, Tensor, Term, Val};

verus! {

/// What a full-attention layer keeps between passes.
#[derive(Clone, Copy, PartialEq, Eq, Structural, Debug)]
pub struct FullKv {
    pub cache: CatCache,
    /// Preallocated `[kv_heads, max_seq, head_dim]` keys and values of the
    /// shape-static path.
    pub statics: Option<KvBufs>,
}

/// Grouped-query attention whose output may be gated.
#[derive(Clone, Copy, PartialEq, Eq, Structural, Debug)]
pub struct FullAttention {
    /// `[q | gate]` per head where gated.
    pub q_proj: Proj,
    pub k_proj: Proj,
    pub v_proj: Proj,
    pub o_proj: Proj,
    pub q_norm: RmsNormPlus1,
    pub k_norm: RmsNormPlus1,
    pub n_heads: usize,
    pub n_kv_heads: usize,
    pub head_dim: usize,
    pub gated: bool,
}

/// Output of a mixer and what it leaves behind.
pub struct FullOut {
    pub out: Val,
    pub bufs: Bufs,
    pub buffers: Seq<Buf>,
    pub kv: FullKv,
}

/// Why attention stopped, and what it leaves behind.
pub struct FullStop {
    pub error: Error,
    pub bufs: Bufs,
    pub buffers: Seq<Buf>,
    pub kv: FullKv,
}

/// Keys or values once per query head.
pub open spec fn repeated(x: Val, rep: usize) -> Val {
    if rep == 1 {
        x
    } else {
        let (b, kvh, s, hd) = (x.shape.d0, x.shape.d1, x.shape.d2, x.shape.d3);
        un(
            Op::Reshape(d4(b, sat_product(kvh, rep), s, hd)),
            un(Op::Expand(d5(b, kvh, rep, s, hd)), un(Op::Unsqueeze(2), x)),
        )
    }
}

pub fn repeat_kv(t: &mut Tape, x: Tensor, rep: usize) -> (r: Tensor)
    requires
        old(t).has(x),
    ensures
        final(t).computed(*old(t)),
        final(t).has(r),
        r@ == repeated(x@, rep),
{
    if rep == 1 {
        return x;
    }
    let (b, kvh, s, hd) = (x.shape.d0, x.shape.d1, x.shape.d2, x.shape.d3);
    let y = t.un(Op::Unsqueeze(2), x);
    let y = t.un(Op::Expand(d5(b, kvh, rep, s, hd)), y);
    proof {
        lemma_contiguous(y@);
    }
    let y = t.un(Op::Contiguous, y);
    t.un(Op::Reshape(d4(b, saturating_product(kvh, rep), s, hd)), y)
}

/// Rows once per head of a group.
pub open spec fn expanded(x: Val, group: usize) -> Val {
    if group == 1 {
        x
    } else {
        let (h, d) = (x.shape.d0, x.shape.d1);
        un(
            Op::Reshape(d2(sat_product(h, group), d)),
            un(Op::Expand(d3(h, group, d)), un(Op::Unsqueeze(1), x)),
        )
    }
}

/// Records `[heads, dim]` rows repeated for the heads of a group.
pub fn expand_heads(t: &mut Tape, x: Tensor, group: usize) -> (r: Result<Tensor, Error>)
    requires
        old(t).has(x),
    ensures
        final(t).computed(*old(t)),
        group != 1 && x.shape.rank != 2 ==> r == Err::<Tensor, Error>(
            Error::UnexpectedRank { expected: 2, got: x.shape.rank },
        ),
        group == 1 || x.shape.rank == 2 ==> r is Ok && final(t).has(r->Ok_0) && r->Ok_0@
            == expanded(x@, group),
{
    if group == 1 {
        return Ok(x);
    }
    let (h, d) = x.dims2()?;
    let y = t.un(Op::Unsqueeze(1), x);
    let y = t.un(Op::Expand(d3(h, group, d)), y);
    Ok(t.un(Op::Reshape(d2(saturating_product(h, group), d)), y))
}

impl FullAttention {
    /// There are key/value heads to group the heads by.
    pub open spec fn wf(self) -> bool {
        self.n_kv_heads > 0
    }

    pub open spec fn asked(
        self,
        l: Loader,
        cfg: Qwen35TextConfig,
        vb: Seq<char>,
        quant: Option<GgmlDType>,
    ) -> bool {
        let (h, hd) = (cfg.hidden_size, cfg.head_dim_spec());
        let q = sat_product(cfg.num_attention_heads, hd);
        let kv = sat_product(cfg.num_key_value_heads, hd);
        let q_out = if cfg.attn_output_gate { sat_product(q, 2) } else { q };
        let wide = suited(h, quant);
        &&& self.q_proj.asked(l, h, q_out, false, pp(vb, "q_proj"@), wide)
        &&& self.k_proj.asked(l, h, kv, false, pp(vb, "k_proj"@), wide)
        &&& self.v_proj.asked(l, h, kv, false, pp(vb, "v_proj"@), wide)
        &&& self.o_proj.asked(l, q, h, false, pp(vb, "o_proj"@), suited(q, quant))
        &&& self.q_norm.asked(l, hd, cfg.rms_norm_eps, pp(vb, "q_norm"@))
        &&& self.k_norm.asked(l, hd, cfg.rms_norm_eps, pp(vb, "k_norm"@))
        &&& self.n_heads == cfg.num_attention_heads
        &&& self.n_kv_heads == cfg.num_key_value_heads
        &&& self.head_dim == hd
        &&& self.gated == cfg.attn_output_gate
    }

    pub fn new(l: &mut Loader, cfg: &Qwen35TextConfig, vb: &VarPath, quant: Option<GgmlDType>) -> (r:
        FullAttention)
        requires
            cfg.valid(),
        ensures
            final(l).grew(*old(l)),
            final(l).added(*old(l), 6),
            r.asked(*final(l), *cfg, vb@, quant),
            r.wf(),
    {
        let (h, hd) = (cfg.hidden_size, cfg.head_dim());
        let q: usize = saturating_product(cfg.num_attention_heads, hd);
        let kv: usize = saturating_product(cfg.num_key_value_heads, hd);
        let q_out: usize = if cfg.attn_output_gate { saturating_product(q, 2) } else { q };
        let q_proj = qproj(l, h, q_out, &vb.pp("q_proj"), quant);
        let k_proj = qproj(l, h, kv, &vb.pp("k_proj"), quant);
        let v_proj = qproj(l, h, kv, &vb.pp("v_proj"), quant);
        let o_proj = qproj(l, q, h, &vb.pp("o_proj"), quant);
        let q_norm = RmsNormPlus1::new(l, hd, cfg.rms_norm_eps, &vb.pp("q_norm"));
        let k_norm = RmsNormPlus1::new(l, hd, cfg.rms_norm_eps, &vb.pp("k_norm"));
        FullAttention {
            q_proj,
            k_proj,
            v_proj,
            o_proj,
            q_norm,
            k_norm,
            n_heads: cfg.num_attention_heads,
            n_kv_heads: cfg.num_key_value_heads,
            head_dim: hd,
            gated: cfg.attn_output_gate,
        }
    }

    /// Half `part` (query or gate) of the query projection, `[b, seq, heads,
    /// hd]`.
    pub open spec fn query_part(self, x: Val, b: usize, seq: usize, part: usize) -> Val {
        let hd = self.head_dim;
        let qg = self.q_proj.apply(x);
        if self.gated {
            un(
                Op::Select { dim: 3, index: part },
                un(Op::Reshape(d5(b, seq, self.n_heads, 2, hd)), qg),
            )
        } else {
            un(Op::Reshape(d4(b, seq, self.n_heads, hd)), qg)
        }
    }

    /// Normalized queries `[b, heads, seq, hd]`, before rotation.
    pub open spec fn query(self, x: Val, b: usize, seq: usize) -> Val {
        un(Op::Transpose(1, 2), self.q_norm.apply(self.query_part(x, b, seq, 0)))
    }

    /// Normalized keys, before rotation.
    pub open spec fn key(self, x: Val, b: usize, seq: usize) -> Val {
        let split = Op::Reshape(d4(b, seq, self.n_kv_heads, self.head_dim));
        un(Op::Transpose(1, 2), self.k_norm.apply(un(split, self.k_proj.apply(x))))
    }

    pub open spec fn value(self, x: Val, b: usize, seq: usize) -> Val {
        let split = Op::Reshape(d4(b, seq, self.n_kv_heads, self.head_dim));
        un(Op::Transpose(1, 2), un(split, self.v_proj.apply(x)))
    }

    /// `out` (`[b, heads, seq, hd]`) gated, joined and projected.
    pub open spec fn output(self, out: Val, x: Val, b: usize, seq: usize) -> Val {
        let out = if self.gated {
            let gate = un(Op::Transpose(1, 2), self.query_part(x, b, seq, 1));
            bin(Op::Mul, out, un(Op::Sigmoid, gate))
        } else {
            out
        };
        self.o_proj.apply(
            un(
                Op::Reshape(d3(b, seq, sat_product(self.n_heads, self.head_dim))),
                un(Op::Transpose(1, 2), out),
            ),
        )
    }

    fn project(&self, t: &mut Tape, x: Tensor, b: usize, seq: usize) -> (r: (
        Tensor,
        Tensor,
        Tensor,
        Option<Tensor>,
    ))
        requires
            old(t).has(x),
        ensures
            final(t).computed(*old(t)),
            final(t).has(r.0),
            final(t).has(r.1),
            final(t).has(r.2),
            final(t).has_opt(r.3),
            r.0@ == self.query(x@, b, seq),
            r.1@ == self.key(x@, b, seq),
            r.2@ == self.value(x@, b, seq),
            r.3 is Some <==> self.gated,
            r.3 matches Some(g) ==> g@ == self.query_part(x@, b, seq, 1),
    {
        let hd: usize = self.head_dim;
        let qg = self.q_proj.forward(t, x);
        let (q, gate) = if self.gated {
            let qg = t.un(Op::Reshape(d5(b, seq, self.n_heads, 2, hd)), qg);
            let q = t.un(Op::Select { dim: 3, index: 0 }, qg);
            let g = t.un(Op::Select { dim: 3, index: 1 }, qg);
            (q, Some(g))
        } else {
            (t.un(Op::Reshape(d4(b, seq, self.n_heads, hd)), qg), None)
        };
        let split = Op::Reshape(d4(b, seq, self.n_kv_heads, hd));
        let k = self.k_proj.forward(t, x);
        let k = t.un(split, k);
        let v = self.v_proj.forward(t, x);
        let v = t.un(split, v);
        let q = self.q_norm.forward(t, q);
        let k = self.k_norm.forward(t, k);
        let q = t.un(Op::Transpose(1, 2), q);
        let k = t.un(Op::Transpose(1, 2), k);
        let v = t.un(Op::Transpose(1, 2), v);
        (q, k, v, gate)
    }

    fn project_out(
        &self,
        t: &mut Tape,
        out: Tensor,
        gate: Option<Tensor>,
        b: usize,
        seq: usize,
        Ghost(x): Ghost<Val>,
    ) -> (r: Tensor)
        requires
            old(t).has(out),
            old(t).has_opt(gate),
            gate is Some <==> self.gated,
            gate matches Some(g) ==> g@ == self.query_part(x, b, seq, 1),
        ensures
            final(t).computed(*old(t)),
            final(t).has(r),
            r@ == self.output(out@, x, b, seq),
    {
        let out = match gate {
            Some(g) => {
                let g = t.un(Op::Transpose(1, 2), g);
                proof {
                    lemma_contiguous(g@);
                }
                let g = t.un(Op::Contiguous, g);
                let g = t.un(Op::Sigmoid, g);
                t.bin(Op::Mul, out, g)
            },
            None => out,
        };
        let out = t.un(Op::Transpose(1, 2), out);
        let width: usize = saturating_product(self.n_heads, self.head_dim);
        let out = t.un(Op::Reshape(d3(b, seq, width)), out);
        self.o_proj.forward(t, out)
    }

    /// Attention of `q` over all keys and values held.
    pub open spec fn attended(self, q: Val, k: Val, v: Val, seq: usize) -> Val {
        let rep = self.n_heads / self.n_kv_heads;
        let kx = repeated(k, rep);
        let vx = repeated(v, rep);
        let att = un(
            Op::MulScalar(Scalar::RecipSqrt(self.head_dim)),
            bin(Op::MatMul, q, un(Op::Transpose(2, 3), kx)),
        );
        let att = if seq > 1 {
            bin(
                Op::BroadcastAdd,
                att,
                un(Op::ToDType(att.dtype), causal(seq, kx.shape.d2)),
            )
        } else {
            att
        };
        let probs = un(
            Op::ToDType(q.dtype),
            un(Op::SoftmaxLast, un(Op::ToDType(DType::F32), att)),
        );
        bin(Op::MatMul, probs, vx)
    }

    /// A pass over `x` (`[b, seq, hidden]`) from position `pos` on.
    pub open spec fn pass(
        self,
        x: Val,
        rotary: Rotary,
        pos: usize,
        kv: FullKv,
        buffers: Seq<Buf>,
        bufs: Bufs,
    ) -> Result<FullOut, FullStop> {
        if x.shape.rank != 3 {
            let error = Error::UnexpectedRank { expected: 3, got: x.shape.rank };
            Err(FullStop { error, bufs, buffers, kv })
        } else if let Some(error) = rotary.beyond(pos, x.shape.d1) {
            Err(FullStop { error, bufs, buffers, kv })
        } else {
            let (b, seq) = (x.shape.d0, x.shape.d1);
            let q = rotary.at(self.query(x, b, seq), pos, seq, self.head_dim);
            let k = rotary.at(self.key(x, b, seq), pos, seq, self.head_dim);
            let v = self.value(x, b, seq);
            let (ka, va) = kv.cache.views(bufs, k, v);
            Ok(
                FullOut {
                    out: self.output(self.attended(q, ka, va, seq), x, b, seq),
                    bufs: kv.cache.bufs_after(buffers, bufs, k, v),
                    buffers: kv.cache.buffers_after(buffers, bufs, k, v),
                    kv: FullKv {
                        cache: CatCache {
                            bufs: Some(kv.cache.pair(buffers, bufs, k, v)),
                            filled: true,
                        },
                        statics: kv.statics,
                    },
                },
            )
        }
    }

    /// `r` and the state after the call are what `want` says.
    pub open spec fn gave(
        r: Result<Tensor, Error>,
        t: Tape,
        kv: FullKv,
        want: Result<FullOut, FullStop>,
    ) -> bool {
        match want {
            Err(s) => {
                &&& r == Err::<Tensor, Error>(s.error)
                &&& t.bufs() == s.bufs
                &&& t.buffers() == s.buffers
                &&& kv == s.kv
            },
            Ok(o) => {
                &&& r is Ok
                &&& t.has(r->Ok_0)
                &&& r->Ok_0@ == o.out
                &&& t.bufs() == o.bufs
                &&& t.buffers() == o.buffers
                &&& kv == o.kv
            },
        }
    }

    /// The mask of a pass over `seq` positions can be written down.
    pub open spec fn mask_fits(kv: FullKv, seq: usize) -> bool {
        seq * (kv.cache.len() + seq) <= usize::MAX
    }

    pub fn forward(&self, t: &mut Tape, kv: &mut FullKv, x: Tensor, rotary: &Rotary, pos: usize) -> (r:
        Result<Tensor, Error>)
        requires
            self.wf(),
            old(kv).cache.wf(),
            rotary.rot <= self.head_dim,
            old(t).has(x),
            Self::mask_fits(*old(kv), x.shape.d1),
        ensures
            final(t).grew(*old(t)),
            final(kv).cache.wf(),
            Self::gave(
                r,
                *final(t),
                *final(kv),
                self.pass(x@, *rotary, pos, *old(kv), old(t).buffers(), old(t).bufs()),
            ),
    {
        let (b, seq, _h) = x.dims3()?;
        let hd: usize = self.head_dim;
        let (q, k, v, gate) = self.project(t, x, b, seq);
        proof {
            lemma_contiguous(v@);
        }
        let v = t.un(Op::Contiguous, v);
        let q = rotary.apply(t, q, pos, seq, hd)?;
        let k = rotary.apply(t, k, pos, seq, hd)?;
        proof {
            lemma_contiguous(k@);
            self.lemma_key_len(x@, *rotary, pos, b, seq);
        }
        let k = t.un(Op::Contiguous, k);
        let ghost held_before = kv.cache.len();
        proof {
            let (ka, _va) = kv.cache.views(t.bufs(), k@, v@);
            assert(ka.shape.d2 == sat_sum(held_before, seq)) by {
                reveal(bin);
            }
        }
        let (k, v) = kv.cache.append(t, k, v);
        let rep: usize = self.n_heads / self.n_kv_heads;
        proof {
            assert(repeated(k@, rep).shape.d2 == k@.shape.d2) by {
                reveal(un);
            }
        }
        let kx = repeat_kv(t, k, rep);
        let vx = repeat_kv(t, v, rep);
        let kt = t.un(Op::Transpose(2, 3), kx);
        proof {
            lemma_contiguous(q@);
            lemma_contiguous(kt@);
        }
        let q = t.un(Op::Contiguous, q);
        let kt = t.un(Op::Contiguous, kt);
        let att = t.bin(Op::MatMul, q, kt);
        let att = t.un(Op::MulScalar(Scalar::RecipSqrt(hd)), att);
        let att = if seq > 1 {
            let total: usize = kx.shape.d2;
            proof {
                let n = held_before as int;
                assert(seq * (n + seq) >= n + seq) by (nonlinear_arith)
                    requires
                        seq >= 1,
                        n >= 0,
                ;
                assert(total == held_before + seq);
            }
            let mask = causal_mask(t, seq, total);
            let mask = t.un(Op::ToDType(att.dtype), mask);
            t.bin(Op::BroadcastAdd, att, mask)
        } else {
            att
        };
        let att = t.un(Op::ToDType(DType::F32), att);
        let att = t.un(Op::SoftmaxLast, att);
        let att = t.un(Op::ToDType(q.dtype), att);
        let out = t.bin(Op::MatMul, att, vx);
        Ok(self.project_out(t, out, gate, b, seq, Ghost(x@)))
    }

    /// Rotated keys have one row per position.
    proof fn lemma_key_len(self, x: Val, rotary: Rotary, pos: usize, b: usize, seq: usize)
        ensures
            rotary.at(self.key(x, b, seq), pos, seq, self.head_dim).shape.d2 == seq,
    {
        let split = Op::Reshape(d4(b, seq, self.n_kv_heads, self.head_dim));
        let k0 = un(split, self.k_proj.apply(x));
        let k1 = self.k_norm.apply(k0);
        let k2 = un(Op::Transpose(1, 2), k1);
        assert(k0.shape == d4(b, seq, self.n_kv_heads, self.head_dim)) by {
            reveal(un);
        }
        assert(k1.shape == k0.shape) by {
            reveal(un);
            reveal(bin);
        }
        assert(k2.shape.d2 == seq) by {
            reveal(un);
        }
        reveal(un);
        reveal(bin);
        reveal(tri);
    }

    /// Buffers of the shape-static path that are made after `buffers`.
    pub open spec fn made(self, buffers: Seq<Buf>, max_seq: usize, dtype: DType) -> KvBufs {
        let shape = d3(self.n_kv_heads, max_seq, self.head_dim);
        KvBufs {
            k: Buf { id: buffers.len() as usize, shape, dtype },
            v: Buf { id: (buffers.len() + 1) as usize, shape, dtype },
        }
    }

    pub open spec fn enabled(
        self,
        kv: FullKv,
        max_seq: usize,
        dtype: DType,
        buffers: Seq<Buf>,
        bufs: Bufs,
    ) -> (FullKv, Seq<Buf>, Bufs) {
        if kv.statics is Some {
            (kv, buffers, bufs)
        } else {
            let p = self.made(buffers, max_seq, dtype);
            (
                FullKv { cache: kv.cache, statics: Some(p) },
                buffers.push(p.k).push(p.v),
                bufs.insert(
                    p.k.id as int,
                    Term::Leaf(Op::Zeros { shape: p.k.shape, dtype }),
                ).insert(p.v.id as int, Term::Leaf(Op::Zeros { shape: p.v.shape, dtype })),
            )
        }
    }

    /// Makes the static buffers, unless they are there.
    pub fn enable_static(&self, t: &mut Tape, kv: &mut FullKv, max_seq: usize, dtype: DType)
        requires
            old(kv).cache.wf(),
        ensures
            final(kv).cache.wf(),
            final(t).grew(*old(t)),
            (*final(kv), final(t).buffers(), final(t).bufs()) == self.enabled(
                *old(kv),
                max_seq,
                dtype,
                old(t).buffers(),
                old(t).bufs(),
            ),
    {
        if kv.statics.is_none() {
            let shape = d3(self.n_kv_heads, max_seq, self.head_dim);
            let k = t.allocate(shape, dtype);
            let v = t.allocate(shape, dtype);
            kv.statics = Some(KvBufs { k, v });
        }
    }

    /// The growing cache copied into the static buffers, and its length.
    pub open spec fn migrated(device: Device, kv: FullKv, bufs: Bufs) -> Result<
        (usize, Bufs),
        Refused,
    > {
        match kv.statics {
            None => Err(Refused { error: Error::StaticNotEnabled, bufs }),
            Some(s) => if !kv.cache.filled {
                Ok((0, bufs))
            } else {
                let c = kv.cache.bufs->0;
                if c.k.shape.rank != 4 {
                    let error = Error::UnexpectedRank { expected: 4, got: c.k.shape.rank };
                    Err(Refused { error, bufs })
                } else if c.k.shape.d0 != 1 {
                    Err(Refused { error: Error::ShapeMismatch, bufs })
                } else {
                    let seq = c.k.shape.d2;
                    let rows = Op::Reshape(d3(c.k.shape.d1, seq, c.k.shape.d3));
                    match linked(
                        bufs,
                        rows_effect(device, bufs, s.k, un(rows, held(bufs, c.k)), 0),
                    ) {
                        Err(x) => Err(x),
                        Ok(b) => match linked(
                            b,
                            rows_effect(device, b, s.v, un(rows, held(bufs, c.v)), 0),
                        ) {
                            Err(x) => Err(x),
                            Ok(b) => Ok((seq, b)),
                        },
                    }
                }
            },
        }
    }

    /// Copies the growing cache, after a prefill of one sequence, into the static
    /// buffers.
    pub fn migrate_kv_to_static(t: &mut Tape, kv: &FullKv) -> (r: Result<usize, Error>)
        requires
            kv.cache.wf(),
        ensures
            final(t).wrote(*old(t)),
            match Self::migrated(old(t).on(), *kv, old(t).bufs()) {
                Err(x) => r == Err::<usize, Error>(x.error) && final(t).bufs() == x.bufs,
                Ok((n, b)) => r == Ok::<usize, Error>(n) && final(t).bufs() == b,
            },
    {
        let s = match kv.statics {
            None => {
                return Err(Error::StaticNotEnabled);
            },
            Some(s) => s,
        };
        if !kv.cache.filled {
            return Ok(0);
        }
        let c = kv.cache.bufs.unwrap();
        let k = t.read(c.k);
        let v = t.read(c.v);
        let (b, kvh, seq, hd) = k.dims4()?;
        if b != 1 {
            return Err(Error::ShapeMismatch);
        }
        let rows = Op::Reshape(d3(kvh, seq, hd));
        let kc = t.un(rows, k);
        let vc = t.un(rows, v);
        proof {
            lemma_contiguous(kc@);
            lemma_contiguous(vc@);
        }
        let kc = t.un(Op::Contiguous, kc);
        let vc = t.un(Op::Contiguous, vc);
        kv_write_chunk(t, s.k, kc, 0)?;
        kv_write_chunk(t, s.v, vc, 0)?;
        Ok(seq)
    }

    /// Attention of one token over the whole extent of the static buffers.
    pub open spec fn step_attended(self, q: Val, k: Val, v: Val, mask: Val) -> Val {
        let rep = self.n_heads / self.n_kv_heads;
        let hd = self.head_dim;
        let q4 = un(Op::Reshape(d4(1, self.n_kv_heads, rep, hd)), q);
        let kb = un(Op::Unsqueeze(0), k);
        let vb = un(Op::Unsqueeze(0), v);
        let att = un(
            Op::MulScalar(Scalar::RecipSqrt(hd)),
            bin(Op::MatMul, q4, un(Op::Transpose(2, 3), kb)),
        );
        let att = bin(
            Op::BroadcastAdd,
            un(Op::ToDType(DType::F32), att),
            un(Op::Reshape(d4(1, 1, 1, k.shape.d1)), mask),
        );
        let probs = un(Op::ToDType(q.dtype), un(Op::SoftmaxLast, att));
        un(Op::Reshape(d4(1, self.n_heads, 1, hd)), bin(Op::MatMul, probs, vb))
    }

    /// One token at the position held in `pos`.
    pub open spec fn step_pass(
        self,
        device: Device,
        x: Val,
        rotary: Rotary,
        pos: Buf,
        mask: Buf,
        kv: FullKv,
        buffers: Seq<Buf>,
        bufs: Bufs,
    ) -> Result<FullOut, FullStop> {
        match kv.statics {
            None => Err(FullStop { error: Error::StaticNotEnabled, bufs, buffers, kv }),
            Some(s) => {
                let hd = self.head_dim;
                let at = held(bufs, pos);
                let row = Op::Reshape(d3(self.n_kv_heads, 1, hd));
                let q = rotary.at_rows(self.query(x, 1, 1), at, hd);
                let k = un(row, rotary.at_rows(self.key(x, 1, 1), at, hd));
                let v = un(row, self.value(x, 1, 1));
                match kv_write_effect(device, bufs, s.k, s.v, k, v, pos) {
                    Err(error) => Err(FullStop { error, bufs, buffers, kv }),
                    Ok(b) => {
                        let out = self.step_attended(q, held(b, s.k), held(b, s.v), held(b, mask));
                        Ok(FullOut { out: self.output(out, x, 1, 1), bufs: b, buffers, kv })
                    },
                }
            },
        }
    }

    /// One-token attention over the full static buffers at the position held on
    /// the device: the same queries, keys, values and gate as [`Self::forward`]
    /// makes of one token.
    pub fn forward_static(
        &self,
        t: &mut Tape,
        kv: &FullKv,
        x: Tensor,
        rotary: &Rotary,
        pos: Buf,
        mask: Buf,
    ) -> (r: Result<Tensor, Error>)
        requires
            self.wf(),
            rotary.rot <= self.head_dim,
            old(t).has(x),
        ensures
            final(t).wrote(*old(t)),
            Self::gave(
                r,
                *final(t),
                *kv,
                self.step_pass(
                    old(t).on(),
                    x@,
                    *rotary,
                    pos,
                    mask,
                    *kv,
                    old(t).buffers(),
                    old(t).bufs(),
                ),
            ),
    {
        let hd: usize = self.head_dim;
        let s = match kv.statics {
            None => {
                return Err(Error::StaticNotEnabled);
            },
            Some(s) => s,
        };
        let max_seq: usize = s.k.shape.d1;
        let at = t.read(pos);
        let (q, k, v, gate) = self.project(t, x, 1, 1);
        let q = rotary.apply_gather(t, q, at, hd);
        let k = rotary.apply_gather(t, k, at, hd);
        let row = Op::Reshape(d3(self.n_kv_heads, 1, hd));
        let k = t.un(row, k);
        let v = t.un(row, v);
        proof {
            lemma_contiguous(k@);
            lemma_contiguous(v@);
        }
        let kc = t.un(Op::Contiguous, k);
        let vc = t.un(Op::Contiguous, v);
        kv_write(t, s.k, s.v, kc, vc, pos)?;

        let rep: usize = self.n_heads / self.n_kv_heads;
        let q4 = t.un(Op::Reshape(d4(1, self.n_kv_heads, rep, hd)), q);
        let kb = t.read(s.k);
        let kb = t.un(Op::Unsqueeze(0), kb);
        let vb = t.read(s.v);
        let vb = t.un(Op::Unsqueeze(0), vb);
        let kt = t.un(Op::Transpose(2, 3), kb);
        proof {
            lemma_contiguous(kt@);
            lemma_contiguous(vb@);
        }
        let kt = t.un(Op::Contiguous, kt);
        let att = t.bin(Op::MatMul, q4, kt);
        let att = t.un(Op::MulScalar(Scalar::RecipSqrt(hd)), att);
        let att = t.un(Op::ToDType(DType::F32), att);
        let m = t.read(mask);
        let m = t.un(Op::Reshape(d4(1, 1, 1, max_seq)), m);
        let att = t.bin(Op::BroadcastAdd, att, m);
        let att = t.un(Op::SoftmaxLast, att);
        let att = t.un(Op::ToDType(q.dtype), att);
        let vb = t.un(Op::Contiguous, vb);
        let out = t.bin(Op::MatMul, att, vb);
        let out = t.un(Op::Reshape(d4(1, self.n_heads, 1, hd)), out);
        Ok(self.project_out(t, out, gate, 1, 1, Ghost(x@)))
    }
}

} // verus!
