//! Layer norm with weight and bias.
use vstd::prelude::*;

use crate::loader::{plain, pp, Loader, VarPath};
use crate::shape::d1;
use crate::tape::{un, Op, Scalar, Tape, Tensor, Val, Weight};

verus! {

/// Bits of `1e-5` in double precision.
pub const NORM_EPS: u64 = 0x3ee4_f8b5_88e3_68f1;

/// A layer norm with weight and bias.
#[derive(Clone, Copy, PartialEq, Eq, Structural, Debug)]
pub struct LayerNorm {
    pub weight: Weight,
    pub bias: Weight,
}

impl LayerNorm {
    pub open spec fn apply(self, x: Val) -> Val {
        un(Op::LayerNorm(self.weight, self.bias, Scalar::F32(NORM_EPS)), x)
    }

    pub open spec fn asked(self, l: Loader, size: usize, vb: Seq<char>) -> bool {
        &&& l.gives(self.weight, plain(pp(vb, "weight"@), d1(size), l.reads()))
        &&& l.gives(self.bias, plain(pp(vb, "bias"@), d1(size), l.reads()))
    }

    pub fn new(l: &mut Loader, size: usize, vb: &VarPath) -> (r: LayerNorm)
        ensures
            final(l).grew(*old(l)),
            final(l).added(*old(l), 2),
            r.asked(*final(l), size, vb@),
    {
        let weight = l.get(vb, "weight", d1(size));
        let bias = l.get(vb, "bias", d1(size));
        LayerNorm { weight, bias }
    }

    pub fn forward(&self, t: &mut Tape, x: Tensor) -> (r: Tensor)
        requires
            old(t).has(x),
        ensures
            final(t).computed(*old(t)),
            final(t).has(r),
            r@ == self.apply(x@),
    {
        t.un(Op::LayerNorm(self.weight, self.bias, Scalar::F32(NORM_EPS)), x)
    }
}

} // verus!
