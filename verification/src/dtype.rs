use vstd::prelude::*;

verus! {

/// Element type of a tensor.
#[derive(Clone, Copy, PartialEq, Eq, Structural, Debug)]
pub enum DType {
    U32,
    F16,
    BF16,
    F32,
}

/// Where a program is going to run.
#[derive(Clone, Copy, PartialEq, Eq, Structural, Debug)]
pub enum Device {
    Cpu,
    Cuda,
    Metal,
}

/// Element-wise activation of a feed-forward block.
#[derive(Clone, Copy, PartialEq, Eq, Structural, Debug)]
pub enum Activation {
    Silu,
    Gelu,
    GeluTanh,
    Relu,
}

impl DType {
    /// Bytes of one element.
    pub fn size_in_bytes(self) -> (n: usize)
        ensures
            n == self.bytes(),
    {
        match self {
            DType::U32 => 4,
            DType::F16 => 2,
            DType::BF16 => 2,
            DType::F32 => 4,
        }
    }

    pub open spec fn bytes(self) -> int {
        match self {
            DType::U32 | DType::F32 => 4,
            DType::F16 | DType::BF16 => 2,
        }
    }
}

} // verus!
