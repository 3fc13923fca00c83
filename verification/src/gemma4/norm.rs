use vstd::prelude::*;

use crate::dtype::DType;
use crate::error::Error;
use crate::fused::{rms_normalize, rms_normalized};
use crate::loader::{changed, plain, pp, Loader, Recipe, RopeTable, VarPath};
use crate::shape::{d1, d2};
use crate::tape::{bin, leaf, tri, un, Op, Scalar, Tape, Tensor, Val, Weight};

verus! {

/// RMS norm with a stored scale. Checkpoints of this family store the scale
/// itself, so nothing is added to it.
#[derive(Clone, Copy, PartialEq, Eq, Structural, Debug)]
pub struct RmsNorm {
    pub weight: Weight,
    pub eps: u64,
}

/// Element type that a norm computes in.
pub open spec fn internal_dtype(d: DType) -> DType {
    if d == DType::F16 || d == DType::BF16 {
        DType::F32
    } else {
        d
    }
}

impl RmsNorm {
    /// The norm of `x` over its last axis.
    pub open spec fn apply(self, x: Val) -> Val {
        let wide = un(Op::ToDType(internal_dtype(x.dtype)), x);
        let last = wide.shape.last_axis();
        let mean = un(
            Op::DivScalar(Scalar::Int(x.shape.last())),
            un(Op::SumKeep(last), un(Op::Sqr, wide)),
        );
        let normed = bin(
            Op::BroadcastDiv,
            wide,
            un(Op::Sqrt, un(Op::AddScalar(Scalar::F64(self.eps)), mean)),
        );
        bin(Op::BroadcastMul, un(Op::ToDType(x.dtype), normed), leaf(Op::Param(self.weight)))
    }

    pub open spec fn asked(self, l: Loader, dim: usize, eps: u64, vb: Seq<char>) -> bool {
        &&& self.eps == eps
        &&& l.gives(self.weight, plain(pp(vb, "weight"@), d1(dim), l.reads()))
    }

    pub fn new(l: &mut Loader, dim: usize, eps: u64, vb: &VarPath) -> (r: RmsNorm)
        ensures
            final(l).grew(*old(l)),
            final(l).added(*old(l), 1),
            r.asked(*final(l), dim, eps, vb@),
    {
        RmsNorm { weight: l.get(vb, "weight", d1(dim)), eps }
    }

    pub fn forward(&self, t: &mut Tape, x: Tensor) -> (r: Tensor)
        requires
            old(t).has(x),
        ensures
            final(t).computed(*old(t)),
            final(t).has(r),
            r@ == self.apply(x@),
    {
        let internal = match x.dtype {
            DType::F16 | DType::BF16 => DType::F32,
            d => d,
        };
        let hidden_size: usize = x.shape.last();
        let wide = t.un(Op::ToDType(internal), x);
        let sq = t.un(Op::Sqr, wide);
        let sum = t.un(Op::SumKeep(wide.shape.last_axis()), sq);
        let mean = t.un(Op::DivScalar(Scalar::Int(hidden_size)), sum);
        let shifted = t.un(Op::AddScalar(Scalar::F64(self.eps)), mean);
        let rms = t.un(Op::Sqrt, shifted);
        let normed = t.bin(Op::BroadcastDiv, wide, rms);
        let back = t.un(Op::ToDType(x.dtype), normed);
        let w = t.leaf(Op::Param(self.weight));
        t.bin(Op::BroadcastMul, back, w)
    }
}

/// RMS norm without a scale, computed in single precision.
pub open spec fn v_normed(v: Val, eps: u64) -> Val {
    un(
        Op::ToDType(v.dtype),
        rms_normalized(un(Op::ToDType(DType::F32), v), Scalar::F64(eps)),
    )
}

pub fn v_norm(t: &mut Tape, v: Tensor, eps: u64) -> (r: Tensor)
    requires
        old(t).has(v),
    ensures
        final(t).computed(*old(t)),
        final(t).has(r),
        r@ == v_normed(v@, eps),
{
    let wide = t.un(Op::ToDType(DType::F32), v);
    let normed = rms_normalize(t, wide, Scalar::F64(eps));
    t.un(Op::ToDType(v.dtype), normed)
}

/// Tables of cosines and sines, one row per position.
#[derive(Clone, Copy, PartialEq, Eq, Structural, Debug)]
pub struct RotaryEmbedding {
    pub sin: Weight,
    pub cos: Weight,
}

impl RotaryEmbedding {
    pub open spec fn asked(
        self,
        l: Loader,
        table: RopeTable,
        half: usize,
        max_seq_len: usize,
    ) -> bool {
        let shape = d2(max_seq_len, half);
        &&& l.gives(self.cos, changed("cos"@, shape, Recipe::RopeCos(table), shape, l.reads()))
        &&& l.gives(self.sin, changed("sin"@, shape, Recipe::RopeSin(table), shape, l.reads()))
    }

    /// Tables of `half` columns for the positions below `max_seq_len`.
    pub fn new(l: &mut Loader, table: RopeTable, half: usize, max_seq_len: usize) -> (r:
        RotaryEmbedding)
        ensures
            final(l).grew(*old(l)),
            final(l).added(*old(l), 2),
            r.asked(*final(l), table, half, max_seq_len),
    {
        let shape = d2(max_seq_len, half);
        let root = VarPath::root();
        let dtype = l.dtype();
        let cos = l.get_changed(&root, "cos", shape, Recipe::RopeCos(table), shape, dtype);
        let sin = l.get_changed(&root, "sin", shape, Recipe::RopeSin(table), shape, dtype);
        RotaryEmbedding { sin, cos }
    }

    /// Positions that both tables have a row for.
    pub open spec fn rows(self) -> usize {
        if self.cos.shape.d0 <= self.sin.shape.d0 { self.cos.shape.d0 } else { self.sin.shape.d0 }
    }

    /// Why the `len` positions from `offset` on cannot be looked up, if they
    /// cannot.
    pub open spec fn beyond(self, offset: usize, len: usize) -> Option<Error> {
        if offset + len > self.rows() {
            Some(Error::BeyondTable { pos: offset, len, rows: self.rows() })
        } else {
            None
        }
    }

    fn check_rows(&self, offset: usize, len: usize) -> (r: Result<(), Error>)
        ensures
            match self.beyond(offset, len) {
                Some(e) => r == Err::<(), Error>(e),
                None => r == Ok::<(), Error>(()),
            },
    {
        let (c, s) = (self.cos.shape.d0, self.sin.shape.d0);
        let rows: usize = if c <= s { c } else { s };
        if len > rows || offset > rows - len {
            return Err(Error::BeyondTable { pos: offset, len, rows });
        }
        Ok(())
    }

    /// `x` rotated by the `len` rows from `offset` on.
    pub open spec fn at_offset(self, x: Val, offset: usize, len: usize) -> Val {
        tri(
            Op::Rope,
            x,
            un(Op::Narrow { dim: 0, start: offset, len }, leaf(Op::Param(self.cos))),
            un(Op::Narrow { dim: 0, start: offset, len }, leaf(Op::Param(self.sin))),
        )
    }

    /// `x` rotated by the rows that `idx` names.
    pub open spec fn at_rows(self, x: Val, idx: Val) -> Val {
        tri(
            Op::Rope,
            x,
            bin(Op::IndexSelect(0), leaf(Op::Param(self.cos)), idx),
            bin(Op::IndexSelect(0), leaf(Op::Param(self.sin)), idx),
        )
    }

    /// Records the rotation of `q` and `k`, both of `len` positions from
    /// `seqlen_offset` on, as far as the tables reach.
    pub fn apply_rotary_emb_qkv(
        &self,
        t: &mut Tape,
        q: Tensor,
        k: Tensor,
        seqlen_offset: usize,
        len: usize,
    ) -> (r: Result<(Tensor, Tensor), Error>)
        requires
            old(t).has(q),
            old(t).has(k),
        ensures
            final(t).computed(*old(t)),
            match self.beyond(seqlen_offset, len) {
                Some(e) => r == Err::<(Tensor, Tensor), Error>(e),
                None => {
                    &&& r matches Ok((q_embed, k_embed))
                    &&& final(t).has(q_embed)
                    &&& final(t).has(k_embed)
                    &&& q_embed@ == self.at_offset(q@, seqlen_offset, len)
                    &&& k_embed@ == self.at_offset(k@, seqlen_offset, len)
                },
            },
    {
        self.check_rows(seqlen_offset, len)?;
        proof {
            crate::fused::lemma_contiguous(q@);
            crate::fused::lemma_contiguous(k@);
        }
        let cos = t.leaf(Op::Param(self.cos));
        let cos = t.un(Op::Narrow { dim: 0, start: seqlen_offset, len }, cos);
        let sin = t.leaf(Op::Param(self.sin));
        let sin = t.un(Op::Narrow { dim: 0, start: seqlen_offset, len }, sin);
        let q = t.un(Op::Contiguous, q);
        let q_embed = t.tri(Op::Rope, q, cos, sin);
        let k = t.un(Op::Contiguous, k);
        let k_embed = t.tri(Op::Rope, k, cos, sin);
        Ok((q_embed, k_embed))
    }

    /// Records the rotation of `x` by the rows that `idx` names.
    pub fn rope_gather(&self, t: &mut Tape, x: Tensor, idx: Tensor) -> (r: Tensor)
        requires
            old(t).has(x),
            old(t).has(idx),
        ensures
            final(t).computed(*old(t)),
            final(t).has(r),
            r@ == self.at_rows(x@, idx@),
    {
        proof {
            crate::fused::lemma_contiguous(x@);
        }
        let cos = t.leaf(Op::Param(self.cos));
        let cos = t.bin(Op::IndexSelect(0), cos, idx);
        let sin = t.leaf(Op::Param(self.sin));
        let sin = t.bin(Op::IndexSelect(0), sin, idx);
        let x = t.un(Op::Contiguous, x);
        t.tri(Op::Rope, x, cos, sin)
    }
}

} // verus!
