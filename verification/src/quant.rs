//! Block quantization: which block type a projection gets, and where the rows
//! of a packed tensor lie once it is quantized.
use vstd::arithmetic::div_mod::{lemma_fundamental_div_mod, lemma_fundamental_div_mod_converse};
use vstd::prelude::*;

use crate::dtype::Device;
use crate::error::Error;

verus! {

/// Block types of quantized tensors.
#[derive(Clone, Copy, PartialEq, Eq, Structural, Debug)]
pub enum GgmlDType {
    F32,
    F16,
    BF16,
    Q4_0,
    Q4_1,
    Q5_0,
    Q5_1,
    Q8_0,
    Q8_1,
    Q2K,
    Q3K,
    Q4K,
    Q5K,
    Q6K,
    Q8K,
}

impl GgmlDType {
    /// Elements in one block.
    #[verifier::allow_in_spec]
    pub fn block_size(self) -> usize
        returns
            (match self {
                GgmlDType::F32 | GgmlDType::F16 | GgmlDType::BF16 => 1usize,
                GgmlDType::Q4_0
                | GgmlDType::Q4_1
                | GgmlDType::Q5_0
                | GgmlDType::Q5_1
                | GgmlDType::Q8_0
                | GgmlDType::Q8_1 => 32usize,
                _ => 256usize,
            }),
    {
        match self {
            GgmlDType::F32 | GgmlDType::F16 | GgmlDType::BF16 => 1usize,
            GgmlDType::Q4_0
            | GgmlDType::Q4_1
            | GgmlDType::Q5_0
            | GgmlDType::Q5_1
            | GgmlDType::Q8_0
            | GgmlDType::Q8_1 => 32usize,
            _ => 256usize,
        }
    }

    /// Bytes of one block.
    #[verifier::allow_in_spec]
    pub fn type_size(self) -> usize
        returns
            (match self {
                GgmlDType::F32 => 4usize,
                GgmlDType::F16 | GgmlDType::BF16 => 2usize,
                GgmlDType::Q4_0 => 18usize,
                GgmlDType::Q4_1 => 20usize,
                GgmlDType::Q5_0 => 22usize,
                GgmlDType::Q5_1 => 24usize,
                GgmlDType::Q8_0 => 34usize,
                GgmlDType::Q8_1 => 36usize,
                GgmlDType::Q2K => 84usize,
                GgmlDType::Q3K => 110usize,
                GgmlDType::Q4K => 144usize,
                GgmlDType::Q5K => 176usize,
                GgmlDType::Q6K => 210usize,
                GgmlDType::Q8K => 292usize,
            }),
    {
        match self {
            GgmlDType::F32 => 4usize,
            GgmlDType::F16 | GgmlDType::BF16 => 2usize,
            GgmlDType::Q4_0 => 18usize,
            GgmlDType::Q4_1 => 20usize,
            GgmlDType::Q5_0 => 22usize,
            GgmlDType::Q5_1 => 24usize,
            GgmlDType::Q8_0 => 34usize,
            GgmlDType::Q8_1 => 36usize,
            GgmlDType::Q2K => 84usize,
            GgmlDType::Q3K => 110usize,
            GgmlDType::Q4K => 144usize,
            GgmlDType::Q5K => 176usize,
            GgmlDType::Q6K => 210usize,
            GgmlDType::Q8K => 292usize,
        }
    }
}

/// The K-quants, whose blocks are 256 wide.
pub open spec fn is_k_quant(d: GgmlDType) -> bool {
    d == GgmlDType::Q2K || d == GgmlDType::Q3K || d == GgmlDType::Q4K || d == GgmlDType::Q5K || d
        == GgmlDType::Q6K || d == GgmlDType::Q8K
}

/// K-quants need the reduction dim to be a multiple of 256; otherwise a type
/// with blocks of 32 takes their place.
pub fn moe_quant_dtype_for(k: usize, requested: GgmlDType) -> (r: GgmlDType)
    ensures
        r == moe_quant_dtype(k, requested),
{
    let needs_256 = match requested {
        GgmlDType::Q2K
        | GgmlDType::Q3K
        | GgmlDType::Q4K
        | GgmlDType::Q5K
        | GgmlDType::Q6K
        | GgmlDType::Q8K => true,
        _ => false,
    };
    if needs_256 && k % 256 != 0 {
        GgmlDType::Q8_0
    } else {
        requested
    }
}

pub open spec fn moe_quant_dtype(k: usize, requested: GgmlDType) -> GgmlDType {
    if is_k_quant(requested) && k % 256 != 0 {
        GgmlDType::Q8_0
    } else {
        requested
    }
}

/// As [`moe_quant_dtype_for`], for every type whose blocks are wider than 32.
pub fn quant_dtype_for(in_dim: usize, requested: GgmlDType) -> (r: GgmlDType)
    ensures
        r == quant_dtype(in_dim, requested),
{
    let block = requested.block_size();
    if block > 32 && in_dim % 256 != 0 {
        GgmlDType::Q8_0
    } else {
        requested
    }
}

pub open spec fn quant_dtype(in_dim: usize, requested: GgmlDType) -> GgmlDType {
    if requested.block_size() > 32 && in_dim % 256 != 0 {
        GgmlDType::Q8_0
    } else {
        requested
    }
}

/// Whatever type is requested, a row whose length is a multiple of 32 is a
/// whole number of blocks of the type it gets.
pub proof fn law_fallback_keeps_rows_whole(in_dim: usize, requested: GgmlDType)
    requires
        in_dim % 32 == 0,
    ensures
        in_dim % quant_dtype(in_dim, requested).block_size() == 0,
        in_dim % moe_quant_dtype(in_dim, requested).block_size() == 0,
{
}

/// The two ways of choosing choose the same.
pub proof fn law_fallbacks_agree(in_dim: usize, requested: GgmlDType)
    ensures
        quant_dtype(in_dim, requested) == moe_quant_dtype(in_dim, requested),
{
}

/// Only matrices whose rows are whole blocks are stored quantized.
pub fn should_quantize(rank: usize, dim1: usize, dtype: GgmlDType) -> (r: GgmlDType)
    ensures
        r == (if rank == 2 && dim1 % dtype.block_size() == 0 { dtype } else { GgmlDType::F32 }),
{
    if rank == 2 && dim1 % dtype.block_size() == 0 {
        dtype
    } else {
        GgmlDType::F32
    }
}

/// How a quantized weight is come by.
#[derive(Clone, Copy, PartialEq, Eq, Structural, Debug)]
pub enum QuantAction {
    /// Straight from the cache.
    UseCached,
    /// Read, quantized on the CPU, and only the blocks sent to the device.
    QuantizeOnto,
    /// Read, widened to single precision and quantized in place.
    QuantizeHere,
}

/// A cached tensor is used as it is; a fresh one is quantized on the CPU when
/// the device is a GPU, so that no wide copy of it lands there.
pub fn quant_action(cached: bool, device: Device) -> (r: QuantAction)
    ensures
        cached ==> r == QuantAction::UseCached,
        !cached && device == Device::Cuda ==> r == QuantAction::QuantizeOnto,
        !cached && device != Device::Cuda ==> r == QuantAction::QuantizeHere,
{
    if cached {
        QuantAction::UseCached
    } else if device == Device::Cuda {
        QuantAction::QuantizeOnto
    } else {
        QuantAction::QuantizeHere
    }
}

/// Bytes of a quantized row of `dim` elements.
pub open spec fn row_bytes(dim: int, dtype: GgmlDType) -> int {
    dim / dtype.block_size() as int * dtype.type_size()
}

/// A range of bytes.
#[derive(Clone, Copy, PartialEq, Eq, Structural, Debug)]
pub struct ByteRange {
    pub start: usize,
    pub end: usize,
}

/// Where the three projections of one expert lie in the two packed tensors.
#[derive(Clone, Copy, PartialEq, Eq, Structural, Debug)]
pub struct ExpertSlices {
    /// In the packed gate/up tensor.
    pub gate: ByteRange,
    /// In the packed gate/up tensor.
    pub up: ByteRange,
    /// In the packed down tensor.
    pub down: ByteRange,
}

/// Packing of `experts` experts: `[experts, 2 * inter, hidden]` with gate
/// rows first, and `[experts, hidden, inter]`.
#[derive(Clone, Copy, PartialEq, Eq, Structural, Debug)]
pub struct PackedExperts {
    pub experts: usize,
    pub inter: usize,
    pub hidden: usize,
    pub gate_up: GgmlDType,
    pub down: GgmlDType,
}

impl PackedExperts {
    pub open spec fn gate_up_row(self) -> int {
        row_bytes(self.hidden as int, self.gate_up)
    }

    pub open spec fn down_row(self) -> int {
        row_bytes(self.inter as int, self.down)
    }

    /// Bytes of one expert's gate rows, which are as many as its up rows.
    pub open spec fn gate_bytes(self) -> int {
        self.inter * self.gate_up_row()
    }

    pub open spec fn down_bytes(self) -> int {
        self.hidden * self.down_row()
    }

    /// Both packed tensors can be addressed.
    pub open spec fn fits(self) -> bool {
        &&& self.gate_up_row() <= usize::MAX
        &&& self.down_row() <= usize::MAX
        &&& self.experts * (2 * self.gate_bytes()) <= usize::MAX
        &&& self.experts * self.down_bytes() <= usize::MAX
    }

    /// Chooses the block types; a row that is not whole blocks is refused.
    pub fn plan(experts: usize, inter: usize, hidden: usize, requested: GgmlDType) -> (r: Result<
        PackedExperts,
        Error,
    >)
        ensures
            ({
                let gu = quant_dtype(hidden, requested);
                let dn = quant_dtype(inter, requested);
                if hidden % gu.block_size() != 0 || inter % dn.block_size() != 0 {
                    r == Err::<PackedExperts, Error>(Error::NotBlockAligned)
                } else {
                    r == Ok::<PackedExperts, Error>(
                        PackedExperts { experts, inter, hidden, gate_up: gu, down: dn },
                    )
                }
            }),
    {
        let gate_up = quant_dtype_for(hidden, requested);
        let down = quant_dtype_for(inter, requested);
        if hidden % gate_up.block_size() != 0 {
            return Err(Error::NotBlockAligned);
        }
        if inter % down.block_size() != 0 {
            return Err(Error::NotBlockAligned);
        }
        Ok(PackedExperts { experts, inter, hidden, gate_up, down })
    }

    /// The slices of expert `i`.
    pub open spec fn slices_of(self, i: int) -> (int, int, int) {
        (
            i * (2 * self.gate_bytes()),
            i * (2 * self.gate_bytes()) + self.gate_bytes(),
            i * self.down_bytes(),
        )
    }

    /// The bytes of expert `i`.
    pub fn slices(self, i: usize) -> (r: ExpertSlices)
        requires
            i < self.experts,
            self.fits(),
        ensures
            ({
                let (g, u, d) = self.slices_of(i as int);
                &&& r.gate.start == g
                &&& r.gate.end == g + self.gate_bytes()
                &&& r.up.start == u
                &&& r.up.end == u + self.gate_bytes()
                &&& r.down.start == d
                &&& r.down.end == d + self.down_bytes()
            }),
    {
        proof {
            self.lemma_room(i as int);
        }
        let row_gu: usize = self.hidden / self.gate_up.block_size() * self.gate_up.type_size();
        let row_dn: usize = self.inter / self.down.block_size() * self.down.type_size();
        let gate_bytes: usize = self.inter * row_gu;
        let g0: usize = i * (2 * gate_bytes);
        let u0: usize = g0 + gate_bytes;
        let down_bytes: usize = self.hidden * row_dn;
        let dn0: usize = i * down_bytes;
        ExpertSlices {
            gate: ByteRange { start: g0, end: u0 },
            up: ByteRange { start: u0, end: u0 + gate_bytes },
            down: ByteRange { start: dn0, end: dn0 + down_bytes },
        }
    }

    proof fn lemma_room(self, i: int)
        requires
            0 <= i < self.experts,
            self.fits(),
        ensures
            0 <= self.gate_bytes(),
            0 <= self.down_bytes(),
            0 <= i * (2 * self.gate_bytes()),
            0 <= i * self.down_bytes(),
            (i + 1) * (2 * self.gate_bytes()) == i * (2 * self.gate_bytes()) + 2
                * self.gate_bytes(),
            (i + 1) * self.down_bytes() == i * self.down_bytes() + self.down_bytes(),
            (i + 1) * (2 * self.gate_bytes()) <= usize::MAX,
            (i + 1) * self.down_bytes() <= usize::MAX,
    {
        let g = 2 * self.gate_bytes();
        let d = self.down_bytes();
        let e = self.experts as int;
        let (inter, hidden) = (self.inter as int, self.hidden as int);
        let (gr, dr) = (self.gate_up_row(), self.down_row());
        assert(0 <= inter * gr) by (nonlinear_arith)
            requires
                0 <= inter,
                0 <= gr,
        ;
        assert(0 <= hidden * dr) by (nonlinear_arith)
            requires
                0 <= hidden,
                0 <= dr,
        ;
        assert(0 <= i * g && (i + 1) * g == i * g + g && (i + 1) * g <= e * g) by (nonlinear_arith)
            requires
                0 <= i < e,
                0 <= g,
        ;
        assert(0 <= i * d && (i + 1) * d == i * d + d && (i + 1) * d <= e * d) by (nonlinear_arith)
            requires
                0 <= i < e,
                0 <= d,
        ;
    }

    /// The slices of the experts tile both packed tensors: the first starts at
    /// their start, each starts where the one before it ends, gate rows of
    /// an expert are followed by its up rows, and the last ends at their end.
    pub proof fn law_slices_tile(self, i: int)
        requires
            0 <= i < self.experts,
            self.fits(),
        ensures
            self.slices_of(0) == (0int, self.gate_bytes(), 0int),
            self.slices_of(i).1 == self.slices_of(i).0 + self.gate_bytes(),
            self.slices_of(i + 1).0 == self.slices_of(i).1 + self.gate_bytes(),
            self.slices_of(i + 1).2 == self.slices_of(i).2 + self.down_bytes(),
            self.slices_of(self.experts as int).0 == 2 * (self.experts * self.inter)
                * self.gate_up_row(),
            self.slices_of(self.experts as int).2 == self.experts * self.hidden * self.down_row(),
    {
        self.lemma_room(i);
        let (e, inter, hidden) = (self.experts as int, self.inter as int, self.hidden as int);
        let (gr, dr) = (self.gate_up_row(), self.down_row());
        assert(e * (2 * (inter * gr)) == 2 * (e * inter) * gr) by (nonlinear_arith);
        assert(e * (hidden * dr) == e * hidden * dr) by (nonlinear_arith);
    }
}

/// How many workers share `experts` independent jobs: no more than there are
/// jobs, and at least one.
pub fn worker_count(parallelism: Option<usize>, experts: usize) -> (n: usize)
    requires
        parallelism matches Some(p) ==> p >= 1,
    ensures
        ({
            let p: usize = if parallelism is Some { parallelism->0 } else { 8 };
            let e: usize = if experts == 0 { 1 } else { experts };
            n == (if p <= e { p } else { e })
        }),
        n >= 1,
{
    let p: usize = match parallelism {
        Some(p) => p,
        None => 8,
    };
    let e: usize = if experts == 0 { 1 } else { experts };
    if p <= e { p } else { e }
}

/// How many of the jobs `worker, worker + workers, ...` are below `experts`.
pub open spec fn share(worker: int, workers: int, experts: int) -> int {
    if worker >= experts {
        0
    } else {
        (experts - 1 - worker) / workers + 1
    }
}

/// The jobs of one worker: every `workers`-th one, from its own number on.
pub fn worker_jobs(worker: usize, workers: usize, experts: usize) -> (jobs: Vec<usize>)
    requires
        workers >= 1,
        experts + workers <= usize::MAX,
    ensures
        jobs.len() == share(worker as int, workers as int, experts as int),
        forall|s: int|
            0 <= s < jobs.len() ==> #[trigger] jobs[s] == worker + s * workers && jobs[s]
                < experts,
{
    let mut jobs: Vec<usize> = Vec::new();
    let mut i: usize = worker;
    let ghost n = workers as int;
    assert(0 * n == 0) by (nonlinear_arith);
    while i < experts
        invariant
            workers >= 1,
            n == workers,
            experts + workers <= usize::MAX,
            i == worker + jobs.len() * n,
            jobs.len() > 0 ==> worker + (jobs.len() - 1) * n < experts,
            forall|s: int|
                0 <= s < jobs.len() ==> #[trigger] jobs[s] == worker + s * n && jobs[s] < experts,
        decreases experts + workers - i,
    {
        let ghost len = jobs.len() as int;
        assert((len + 1) * n == len * n + n) by (nonlinear_arith);
        jobs.push(i);
        i += workers;
    }
    proof {
        let len = jobs.len() as int;
        if worker < experts {
            let q = experts - 1 - worker;
            assert(len >= 1) by {
                if len == 0 {
                    assert(len * n == 0) by (nonlinear_arith)
                        requires
                            len == 0,
                    ;
                }
            }
            assert((len - 1) * n <= q < len * n);
            assert(q == (len - 1) * n + (q - (len - 1) * n));
            assert(len * n == (len - 1) * n + n) by (nonlinear_arith);
            lemma_fundamental_div_mod_converse(q, n, len - 1, q - (len - 1) * n);
        } else {
            assert(len == 0) by {
                if len > 0 {
                    assert((len - 1) * n >= 0) by (nonlinear_arith)
                        requires
                            len > 0,
                            n >= 1,
                    ;
                }
            }
        }
    }
    jobs
}

/// Every job belongs to exactly one worker: job `i` is the `i / workers`-th of
/// worker `i % workers`, and of no other worker.
pub proof fn law_each_job_once(i: int, workers: int, experts: int, worker: int, slot: int)
    requires
        0 <= i < experts,
        1 <= workers,
        0 <= worker < workers,
        0 <= slot,
    ensures
        0 <= i % workers < workers,
        0 <= i / workers < share(i % workers, workers, experts),
        worker + slot * workers == i <==> worker == i % workers && slot == i / workers,
{
    lemma_fundamental_div_mod(i, workers);
    assert(workers * (i / workers) == (i / workers) * workers) by (nonlinear_arith);
    if worker + slot * workers == i {
        lemma_fundamental_div_mod_converse(i, workers, slot, worker);
    }
    let w = i % workers;
    let q = i / workers;
    assert(0 <= q) by (nonlinear_arith)
        requires
            i >= 0,
            workers >= 1,
            q == i / workers,
    ;
    let rest = experts - 1 - w;
    assert(q <= rest / workers) by (nonlinear_arith)
        requires
            q * workers <= rest,
            workers >= 1,
    ;
}

/// Where the result of each job is found, in the order of the jobs.
pub fn gather_order(experts: usize, workers: usize) -> (r: Vec<(usize, usize)>)
    requires
        workers >= 1,
    ensures
        r.len() == experts,
        forall|i: int|
            0 <= i < experts ==> #[trigger] r[i] == ((i % workers as int) as usize, (i
                / workers as int) as usize),
{
    let mut r: Vec<(usize, usize)> = Vec::new();
    let mut i: usize = 0;
    while i < experts
        invariant
            i <= experts,
            workers >= 1,
            r.len() == i,
            forall|k: int|
                0 <= k < i ==> #[trigger] r[k] == ((k % workers as int) as usize, (k
                    / workers as int) as usize),
        decreases experts - i,
    {
        r.push((i % workers, i / workers));
        i += 1;
    }
    r
}

} // verus!
