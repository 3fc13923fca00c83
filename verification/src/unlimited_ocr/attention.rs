use vstd::prelude::*;

use crate::dtype::DType;
use crate::error::Error;
use crate::fused::lemma_contiguous;
use crate::kv_cache::CatCache;
use crate::loader::{changed, pp, Loader, Proj, Recipe, RopePrecision, RopeTable, VarPath};
use crate::masks::{causal, causal_mask};
use crate::shape::{d2, d3, d4, sat_product, sat_sum, saturating_product};
use crate::tape::{bin, leaf, tri, un, Buf, Bufs, Op, Scalar, Tape, Tensor, Val, Weight};
use crate::unlimited_ocr::config::UnlimitedOcrTextConfig;

verus! {

/// Rotation of both halves of a head.
#[derive(Clone, Copy, PartialEq, Eq, Structural, Debug)]
pub struct Rotary {
    /// `[max_pos, hd / 2]`
    pub cos: Weight,
    pub sin: Weight,
}

impl Rotary {
    pub open spec fn asked(self, l: Loader, cfg: UnlimitedOcrTextConfig) -> bool {
        let half = cfg.head_dim() / 2;
        let table = RopeTable {
            theta: cfg.rope_theta,
            dim: cfg.head_dim(),
            angles: half,
            precision: RopePrecision::DoublePowers,
        };
        let shape = d2(cfg.max_position_embeddings, half);
        &&& l.gives(self.cos, changed("cos"@, shape, Recipe::RopeCos(table), shape, DType::F32))
        &&& l.gives(self.sin, changed("sin"@, shape, Recipe::RopeSin(table), shape, DType::F32))
    }

    pub fn new(l: &mut Loader, cfg: &UnlimitedOcrTextConfig) -> (r: Rotary)
        ensures
            final(l).grew(*old(l)),
            final(l).added(*old(l), 2),
            r.asked(*final(l), *cfg),
    {
        let hd: usize = cfg.head_dim();
        let half: usize = hd / 2;
        let table = RopeTable {
            theta: cfg.rope_theta,
            dim: hd,
            angles: half,
            precision: RopePrecision::DoublePowers,
        };
        let shape = d2(cfg.max_position_embeddings, half);
        let root = VarPath::root();
        let cos = l.get_changed(&root, "cos", shape, Recipe::RopeCos(table), shape, DType::F32);
        let sin = l.get_changed(&root, "sin", shape, Recipe::RopeSin(table), shape, DType::F32);
        Rotary { cos, sin }
    }

    /// `x` (`[b, heads, seq, hd]`) rotated at the `seq` positions from `pos` on.
    pub open spec fn at(self, x: Val, pos: usize) -> Val {
        let rows = Op::Narrow { dim: 0, start: pos, len: x.shape.d2 };
        tri(
            Op::Rope,
            x,
            un(Op::ToDType(x.dtype), un(rows, leaf(Op::Param(self.cos)))),
            un(Op::ToDType(x.dtype), un(rows, leaf(Op::Param(self.sin)))),
        )
    }

    /// Positions that both tables have a row for.
    pub open spec fn rows(self) -> usize {
        if self.cos.shape.d0 <= self.sin.shape.d0 { self.cos.shape.d0 } else { self.sin.shape.d0 }
    }

    /// Why the `seq` positions from `pos` on cannot be looked up, if they
    /// cannot.
    pub open spec fn beyond(self, pos: usize, seq: usize) -> Option<Error> {
        if pos + seq > self.rows() {
            Some(Error::BeyondTable { pos, len: seq, rows: self.rows() })
        } else {
            None
        }
    }

    /// Records the rotation of `x`, as far as the tables reach.
    pub fn apply(&self, t: &mut Tape, x: Tensor, pos: usize) -> (r: Result<Tensor, Error>)
        requires
            old(t).has(x),
        ensures
            final(t).computed(*old(t)),
            x.shape.rank != 4 ==> r == Err::<Tensor, Error>(
                Error::UnexpectedRank { expected: 4, got: x.shape.rank },
            ),
            x.shape.rank == 4 ==> match self.beyond(pos, x.shape.d2) {
                Some(e) => r == Err::<Tensor, Error>(e),
                None => r is Ok && final(t).has(r->Ok_0) && r->Ok_0@ == self.at(x@, pos),
            },
    {
        let (_b, _h, seq, _hd) = x.dims4()?;
        let (c, s) = (self.cos.shape.d0, self.sin.shape.d0);
        let len: usize = if c <= s { c } else { s };
        if seq > len || pos > len - seq {
            return Err(Error::BeyondTable { pos, len: seq, rows: len });
        }
        let rows = Op::Narrow { dim: 0, start: pos, len: seq };
        let cos = t.leaf(Op::Param(self.cos));
        let cos = t.un(rows, cos);
        let cos = t.un(Op::ToDType(x.dtype), cos);
        let sin = t.leaf(Op::Param(self.sin));
        let sin = t.un(rows, sin);
        let sin = t.un(Op::ToDType(x.dtype), sin);
        proof {
            lemma_contiguous(x@);
        }
        let x = t.un(Op::Contiguous, x);
        Ok(t.tri(Op::Rope, x, cos, sin))
    }
}

/// Attention with as many key/value heads as heads.
#[derive(Clone, Copy, PartialEq, Eq, Structural, Debug)]
pub struct Attention {
    pub q_proj: Proj,
    pub k_proj: Proj,
    pub v_proj: Proj,
    pub o_proj: Proj,
    pub n_heads: usize,
    pub n_kv_heads: usize,
    pub head_dim: usize,
}

/// Output of a pass and what it leaves behind.
pub struct AttnOut {
    pub out: Val,
    pub bufs: Bufs,
    pub buffers: Seq<Buf>,
    pub cache: CatCache,
}

impl Attention {
    pub open spec fn asked(self, l: Loader, cfg: UnlimitedOcrTextConfig, vb: Seq<char>) -> bool {
        let (h, hd) = (cfg.hidden_size, cfg.head_dim());
        let q = sat_product(cfg.num_attention_heads, hd);
        let kv = sat_product(cfg.num_key_value_heads, hd);
        &&& self.q_proj.asked(l, h, q, false, pp(vb, "q_proj"@), None)
        &&& self.k_proj.asked(l, h, kv, false, pp(vb, "k_proj"@), None)
        &&& self.v_proj.asked(l, h, kv, false, pp(vb, "v_proj"@), None)
        &&& self.o_proj.asked(l, q, h, false, pp(vb, "o_proj"@), None)
        &&& self.n_heads == cfg.num_attention_heads
        &&& self.n_kv_heads == cfg.num_key_value_heads
        &&& self.head_dim == hd
    }

    pub fn new(l: &mut Loader, cfg: &UnlimitedOcrTextConfig, vb: &VarPath) -> (r: Attention)
        ensures
            final(l).grew(*old(l)),
            final(l).added(*old(l), 4),
            r.asked(*final(l), *cfg, vb@),
    {
        let h: usize = cfg.hidden_size;
        let hd: usize = cfg.head_dim();
        let q: usize = saturating_product(cfg.num_attention_heads, hd);
        let kv: usize = saturating_product(cfg.num_key_value_heads, hd);
        let q_proj = Proj::dense(l, h, q, false, &vb.pp("q_proj"));
        let k_proj = Proj::dense(l, h, kv, false, &vb.pp("k_proj"));
        let v_proj = Proj::dense(l, h, kv, false, &vb.pp("v_proj"));
        let o_proj = Proj::dense(l, q, h, false, &vb.pp("o_proj"));
        Attention {
            q_proj,
            k_proj,
            v_proj,
            o_proj,
            n_heads: cfg.num_attention_heads,
            n_kv_heads: cfg.num_key_value_heads,
            head_dim: hd,
        }
    }

    /// A projection of `x` as `[b, heads, seq, hd]`.
    pub open spec fn heads(self, p: Proj, heads: usize, x: Val) -> Val {
        un(
            Op::Transpose(1, 2),
            un(Op::Reshape(d4(x.shape.d0, x.shape.d1, heads, self.head_dim)), p.apply(x)),
        )
    }

    /// Attention of `q` over everything held.
    pub open spec fn attended(self, q: Val, k: Val, v: Val, seq: usize) -> Val {
        let att = un(
            Op::MulScalar(Scalar::RecipSqrt(self.head_dim)),
            bin(Op::MatMul, q, un(Op::Transpose(2, 3), k)),
        );
        let att = if seq > 1 {
            bin(Op::BroadcastAdd, att, un(Op::ToDType(att.dtype), causal(seq, k.shape.d2)))
        } else {
            att
        };
        let probs = un(
            Op::ToDType(q.dtype),
            un(Op::SoftmaxLast, un(Op::ToDType(DType::F32), att)),
        );
        bin(Op::MatMul, probs, v)
    }

    /// A pass over `x` (`[b, seq, hidden]`) from position `pos` on. One that is
    /// refused changes nothing.
    pub open spec fn pass(
        self,
        x: Val,
        rotary: Rotary,
        pos: usize,
        cache: CatCache,
        buffers: Seq<Buf>,
        bufs: Bufs,
    ) -> Result<AttnOut, Error> {
        if x.shape.rank != 3 {
            Err(Error::UnexpectedRank { expected: 3, got: x.shape.rank })
        } else if let Some(e) = rotary.beyond(pos, x.shape.d1) {
            Err(e)
        } else {
            let q = rotary.at(self.heads(self.q_proj, self.n_heads, x), pos);
            let k = rotary.at(self.heads(self.k_proj, self.n_kv_heads, x), pos);
            let v = self.heads(self.v_proj, self.n_kv_heads, x);
            let (ka, va) = cache.views(bufs, k, v);
            let width = sat_product(self.n_heads, self.head_dim);
            let out = un(
                Op::Reshape(d3(x.shape.d0, x.shape.d1, width)),
                un(Op::Transpose(1, 2), self.attended(q, ka, va, x.shape.d1)),
            );
            Ok(
                AttnOut {
                    out: self.o_proj.apply(out),
                    bufs: cache.bufs_after(buffers, bufs, k, v),
                    buffers: cache.buffers_after(buffers, bufs, k, v),
                    cache: CatCache {
                        bufs: Some(cache.pair(buffers, bufs, k, v)),
                        filled: true,
                    },
                },
            )
        }
    }

    /// The mask of a pass over `seq` positions can be written down.
    pub open spec fn mask_fits(cache: CatCache, seq: usize) -> bool {
        seq * (cache.len() + seq) <= usize::MAX
    }

    fn split(&self, t: &mut Tape, p: Proj, heads: usize, x: Tensor) -> (r: Tensor)
        requires
            old(t).has(x),
        ensures
            final(t).computed(*old(t)),
            final(t).has(r),
            r@ == self.heads(p, heads, x@),
            r.shape == d4(x.shape.d0, heads, x.shape.d1, self.head_dim),
    {
        let y = p.forward(t, x);
        let y = t.un(Op::Reshape(d4(x.shape.d0, x.shape.d1, heads, self.head_dim)), y);
        let y = t.un(Op::Transpose(1, 2), y);
        assert(y@.shape == d4(x.shape.d0, heads, x.shape.d1, self.head_dim)) by {
            reveal(un);
        }
        y
    }

    /// Records a pass and appends to the cache.
    pub fn forward(&self, t: &mut Tape, cache: &mut CatCache, x: Tensor, rotary: &Rotary, pos: usize) -> (r:
        Result<Tensor, Error>)
        requires
            old(cache).wf(),
            old(t).has(x),
            Self::mask_fits(*old(cache), x.shape.d1),
        ensures
            final(t).grew(*old(t)),
            final(cache).wf(),
            match self.pass(x@, *rotary, pos, *old(cache), old(t).buffers(), old(t).bufs()) {
                Err(e) => {
                    &&& r == Err::<Tensor, Error>(e)
                    &&& final(t).computed(*old(t))
                    &&& *final(cache) == *old(cache)
                },
                Ok(o) => {
                    &&& r is Ok
                    &&& final(t).has(r->Ok_0)
                    &&& r->Ok_0@ == o.out
                    &&& final(t).bufs() == o.bufs
                    &&& final(t).buffers() == o.buffers
                    &&& *final(cache) == o.cache
                },
            },
    {
        let (b, seq, _h) = x.dims3()?;
        let q = self.split(t, self.q_proj, self.n_heads, x);
        let k = self.split(t, self.k_proj, self.n_kv_heads, x);
        let v = self.split(t, self.v_proj, self.n_kv_heads, x);
        proof {
            lemma_contiguous(v@);
        }
        let v = t.un(Op::Contiguous, v);
        let q = rotary.apply(t, q, pos)?;
        let k = rotary.apply(t, k, pos)?;
        proof {
            lemma_contiguous(k@);
            assert(k@.shape.d2 == seq) by {
                reveal(tri);
            }
        }
        let k = t.un(Op::Contiguous, k);
        let ghost before = cache.len();
        proof {
            let (ka, _va) = cache.views(t.bufs(), k@, v@);
            assert(ka.shape.d2 == sat_sum(before, seq)) by {
                reveal(bin);
            }
        }
        let (k, v) = cache.append(t, k, v);
        let kt = t.un(Op::Transpose(2, 3), k);
        proof {
            lemma_contiguous(q@);
            lemma_contiguous(kt@);
        }
        let q = t.un(Op::Contiguous, q);
        let kt = t.un(Op::Contiguous, kt);
        let att = t.bin(Op::MatMul, q, kt);
        let att = t.un(Op::MulScalar(Scalar::RecipSqrt(self.head_dim)), att);
        let att = if seq > 1 {
            let total: usize = k.shape.d2;
            proof {
                let n = before as int;
                assert(seq * (n + seq) >= n + seq) by (nonlinear_arith)
                    requires
                        seq >= 1,
                        n >= 0,
                ;
                assert(total == before + seq);
            }
            let mask = causal_mask(t, seq, total);
            let mask = t.un(Op::ToDType(att.dtype), mask);
            t.bin(Op::BroadcastAdd, att, mask)
        } else {
            att
        };
        let att = t.un(Op::ToDType(DType::F32), att);
        let att = t.un(Op::SoftmaxLast, att);
        let att = t.un(Op::ToDType(q.dtype), att);
        let out = t.bin(Op::MatMul, att, v);
        let out = t.un(Op::Transpose(1, 2), out);
        let width: usize = saturating_product(self.n_heads, self.head_dim);
        let out = t.un(Op::Reshape(d3(b, seq, width)), out);
        Ok(self.o_proj.forward(t, out))
    }
}

} // verus!
