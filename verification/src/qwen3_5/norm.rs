use vstd::prelude::*;

use crate::dtype::DType;
use crate::error::Error;
use crate::fused::{lemma_contiguous, rms_normalize, rms_normalized};
use crate::loader::{
    changed, pp, Loader, Proj, Recipe, RopePrecision, RopeTable, VarPath,
};
use crate::qwen3_5::config::Qwen35TextConfig;
use crate::quant::{quant_dtype, quant_dtype_for, GgmlDType};
use crate::shape::{d1, d2};
use crate::tape::{bin, leaf, tri, un, Op, Scalar, Tape, Tensor, Val, Weight};

verus! {

/// RMS norm by `1 + w`; the one is added at load.
#[derive(Clone, Copy, PartialEq, Eq, Structural, Debug)]
pub struct RmsNormPlus1 {
    pub weight: Weight,
    pub eps: u64,
}

impl RmsNormPlus1 {
    pub open spec fn apply(self, x: Val) -> Val {
        un(
            Op::ToDType(x.dtype),
            bin(
                Op::BroadcastMul,
                rms_normalized(un(Op::ToDType(DType::F32), x), Scalar::F64(self.eps)),
                leaf(Op::Param(self.weight)),
            ),
        )
    }

    pub open spec fn asked(self, l: Loader, size: usize, eps: u64, vb: Seq<char>) -> bool {
        &&& self.eps == eps
        &&& l.gives(
            self.weight,
            changed(pp(vb, "weight"@), d1(size), Recipe::PlusOne, d1(size), DType::F32),
        )
    }

    pub fn new(l: &mut Loader, size: usize, eps: u64, vb: &VarPath) -> (r: RmsNormPlus1)
        ensures
            final(l).grew(*old(l)),
            final(l).added(*old(l), 1),
            r.asked(*final(l), size, eps, vb@),
    {
        let weight = l.get_changed(
            vb,
            "weight",
            d1(size),
            Recipe::PlusOne,
            d1(size),
            DType::F32,
        );
        RmsNormPlus1 { weight, eps }
    }

    pub fn forward(&self, t: &mut Tape, x: Tensor) -> (r: Tensor)
        requires
            old(t).has(x),
        ensures
            final(t).computed(*old(t)),
            final(t).has(r),
            r@ == self.apply(x@),
    {
        let x32 = t.un(Op::ToDType(DType::F32), x);
        let normed = rms_normalize(t, x32, Scalar::F64(self.eps));
        let w = t.leaf(Op::Param(self.weight));
        let y = t.bin(Op::BroadcastMul, normed, w);
        t.un(Op::ToDType(x.dtype), y)
    }
}

/// Bits of `1e-6` in double precision.
pub const L2_EPS: u64 = 0x3eb0_c6f7_a0b5_ed8d;

/// `x` over the Euclidean length of its last axis.
pub open spec fn l2_normed(x: Val) -> Val {
    let len = un(Op::Sqrt, un(Op::SumKeep(x.shape.last_axis()), un(Op::Sqr, x)));
    bin(Op::BroadcastDiv, x, un(Op::AddScalar(Scalar::F64(L2_EPS)), len))
}

pub fn l2norm_last(t: &mut Tape, x: Tensor) -> (r: Tensor)
    requires
        old(t).has(x),
    ensures
        final(t).computed(*old(t)),
        final(t).has(r),
        r@ == l2_normed(x@),
{
    let sq = t.un(Op::Sqr, x);
    let sum = t.un(Op::SumKeep(x.shape.last_axis()), sq);
    let n = t.un(Op::Sqrt, sum);
    let n = t.un(Op::AddScalar(Scalar::F64(L2_EPS)), n);
    t.bin(Op::BroadcastDiv, x, n)
}

/// Positions that a rotary table covers.
pub const MAX_POS: usize = 32768;

/// Interleaved rotation of the first `rot` dims of a head.
#[derive(Clone, Copy, PartialEq, Eq, Structural, Debug)]
pub struct Rotary {
    pub cos: Weight,
    pub sin: Weight,
    pub rot: usize,
}

impl Rotary {
    pub open spec fn asked(self, l: Loader, cfg: Qwen35TextConfig, rot: usize) -> bool {
        let table = RopeTable {
            theta: cfg.theta_spec(),
            dim: rot,
            angles: rot / 2,
            precision: RopePrecision::DoublePowers,
        };
        let shape = d2(MAX_POS, rot / 2);
        &&& self.rot == rot
        &&& l.gives(self.cos, changed("cos"@, shape, Recipe::RopeCos(table), shape, DType::F32))
        &&& l.gives(self.sin, changed("sin"@, shape, Recipe::RopeSin(table), shape, DType::F32))
    }

    /// Tables for `rot` rotating dims.
    pub fn new(l: &mut Loader, cfg: &Qwen35TextConfig, rot: usize) -> (r: Rotary)
        ensures
            final(l).grew(*old(l)),
            final(l).added(*old(l), 2),
            r.asked(*final(l), *cfg, rot),
    {
        let table = RopeTable {
            theta: cfg.theta(),
            dim: rot,
            angles: rot / 2,
            precision: RopePrecision::DoublePowers,
        };
        let shape = d2(MAX_POS, rot / 2);
        let root = VarPath::root();
        let cos = l.get_changed(&root, "cos", shape, Recipe::RopeCos(table), shape, DType::F32);
        let sin = l.get_changed(&root, "sin", shape, Recipe::RopeSin(table), shape, DType::F32);
        Rotary { cos, sin, rot }
    }

    /// `x` with its first `rot` of `hd` dims rotated by the given rows.
    pub open spec fn rotated(self, x: Val, cos: Val, sin: Val, hd: usize) -> Val {
        let cos = un(Op::ToDType(x.dtype), cos);
        let sin = un(Op::ToDType(x.dtype), sin);
        if self.rot == hd {
            tri(Op::RopeInterleaved, x, cos, sin)
        } else {
            let turned = un(Op::Narrow { dim: 3, start: 0, len: self.rot }, x);
            let passed = un(
                Op::Narrow { dim: 3, start: self.rot, len: (hd - self.rot) as usize },
                x,
            );
            bin(Op::Cat(3), tri(Op::RopeInterleaved, turned, cos, sin), passed)
        }
    }

    /// `x` (`[b, heads, seq, hd]`) at the `seq` positions from `pos` on.
    pub open spec fn at(self, x: Val, pos: usize, seq: usize, hd: usize) -> Val {
        let rows = Op::Narrow { dim: 0, start: pos, len: seq };
        self.rotated(
            x,
            un(rows, leaf(Op::Param(self.cos))),
            un(rows, leaf(Op::Param(self.sin))),
            hd,
        )
    }

    /// `x` at the positions that `idx` holds.
    pub open spec fn at_rows(self, x: Val, idx: Val, hd: usize) -> Val {
        self.rotated(
            x,
            bin(Op::IndexSelect(0), leaf(Op::Param(self.cos)), idx),
            bin(Op::IndexSelect(0), leaf(Op::Param(self.sin)), idx),
            hd,
        )
    }

    fn rotate(&self, t: &mut Tape, x: Tensor, cos: Tensor, sin: Tensor, hd: usize) -> (r: Tensor)
        requires
            self.rot <= hd,
            old(t).has(x),
            old(t).has(cos),
            old(t).has(sin),
        ensures
            final(t).computed(*old(t)),
            final(t).has(r),
            r@ == self.rotated(x@, cos@, sin@, hd),
    {
        let cos = t.un(Op::ToDType(x.dtype), cos);
        let sin = t.un(Op::ToDType(x.dtype), sin);
        if self.rot == hd {
            proof {
                lemma_contiguous(x@);
            }
            let x = t.un(Op::Contiguous, x);
            t.tri(Op::RopeInterleaved, x, cos, sin)
        } else {
            let xr = t.un(Op::Narrow { dim: 3, start: 0, len: self.rot }, x);
            proof {
                lemma_contiguous(xr@);
            }
            let xr = t.un(Op::Contiguous, xr);
            let xp = t.un(Op::Narrow { dim: 3, start: self.rot, len: hd - self.rot }, x);
            let xr = t.tri(Op::RopeInterleaved, xr, cos, sin);
            t.bin(Op::Cat(3), xr, xp)
        }
    }

    /// Positions that both tables have a row for.
    pub open spec fn rows(self) -> usize {
        if self.cos.shape.d0 <= self.sin.shape.d0 { self.cos.shape.d0 } else { self.sin.shape.d0 }
    }

    /// Why the `seq` positions from `pos` on cannot be looked up, if they
    /// cannot.
    pub open spec fn beyond(self, pos: usize, seq: usize) -> Option<Error> {
        if pos + seq > self.rows() {
            Some(Error::BeyondTable { pos, len: seq, rows: self.rows() })
        } else {
            None
        }
    }

    /// Records the rotation of `x` at the `seq` positions from `pos` on, as far
    /// as the tables reach.
    pub fn apply(&self, t: &mut Tape, x: Tensor, pos: usize, seq: usize, hd: usize) -> (r: Result<
        Tensor,
        Error,
    >)
        requires
            self.rot <= hd,
            old(t).has(x),
        ensures
            final(t).computed(*old(t)),
            match self.beyond(pos, seq) {
                Some(e) => r == Err::<Tensor, Error>(e),
                None => r is Ok && final(t).has(r->Ok_0) && r->Ok_0@ == self.at(x@, pos, seq, hd),
            },
    {
        let (c, s) = (self.cos.shape.d0, self.sin.shape.d0);
        let len: usize = if c <= s { c } else { s };
        if seq > len || pos > len - seq {
            return Err(Error::BeyondTable { pos, len: seq, rows: len });
        }
        let rows = Op::Narrow { dim: 0, start: pos, len: seq };
        let cos = t.leaf(Op::Param(self.cos));
        let cos = t.un(rows, cos);
        let sin = t.leaf(Op::Param(self.sin));
        let sin = t.un(rows, sin);
        Ok(self.rotate(t, x, cos, sin, hd))
    }

    /// As [`Self::apply`], at a position held on the device.
    pub fn apply_gather(&self, t: &mut Tape, x: Tensor, pos: Tensor, hd: usize) -> (r: Tensor)
        requires
            self.rot <= hd,
            old(t).has(x),
            old(t).has(pos),
        ensures
            final(t).computed(*old(t)),
            final(t).has(r),
            r@ == self.at_rows(x@, pos@, hd),
    {
        let cos = t.leaf(Op::Param(self.cos));
        let cos = t.bin(Op::IndexSelect(0), cos, pos);
        let sin = t.leaf(Op::Param(self.sin));
        let sin = t.bin(Op::IndexSelect(0), sin, pos);
        self.rotate(t, x, cos, sin, hd)
    }
}

/// The block type of a projection from `ins` elements.
pub open spec fn suited(ins: usize, quant: Option<GgmlDType>) -> Option<GgmlDType> {
    match quant {
        None => None,
        Some(q) => Some(quant_dtype(ins, q)),
    }
}

/// Asks for a projection without bias that honors the quantize setting.
pub fn qproj(l: &mut Loader, ins: usize, outs: usize, vb: &VarPath, quant: Option<GgmlDType>) -> (r:
    Proj)
    ensures
        final(l).grew(*old(l)),
        final(l).added(*old(l), 1),
        r.asked(*final(l), ins, outs, false, vb@, suited(ins, quant)),
{
    match quant {
        None => Proj::dense(l, ins, outs, false, vb),
        Some(q) => Proj::blocks(l, ins, outs, false, vb, quant_dtype_for(ins, q)),
    }
}

} // verus!
