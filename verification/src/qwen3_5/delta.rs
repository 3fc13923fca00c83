use vstd::prelude::*;

use crate::dtype::{DType, Device};
use crate::error::Error;
use crate::fused::{lemma_contiguous, rms_normalize, rms_normalized};
use crate::loader::{changed, pp, Loader, Proj, Recipe, VarPath};
use crate::quant::GgmlDType;
use crate::qwen3_5::config::Qwen35TextConfig;
use crate::qwen3_5::norm::{l2_normed, l2norm_last, qproj, suited};
use crate::shape::{d1, d2, d3, sat_product, sat_sum, saturating_product, saturating_sum, Shape};
use crate::static_decode::{
    chain_ended, copy_effect, copy_into, ended, gdn_scan, linked, scan_error, scan_shared_bytes,
    Refused,
};
use crate::tape::{
    bin, held, leaf, scan_output, scan_state, un, Buf, Bufs, Op, Scalar, Tape, Tensor, Term, Val,
    Weight,
};

verus! {

/// Which buffer a piece of recurrent state lives in.
#[derive(Clone, Copy, PartialEq, Eq, Structural, Debug)]
pub enum Live {
    Empty,
    Own,
    Fixed,
}

/// A piece of recurrent state: none, in a buffer of its own, or in the
/// address-stable buffer of the static path.
#[derive(Clone, Copy, PartialEq, Eq, Structural, Debug)]
pub struct Slot {
    pub own: Option<Buf>,
    pub fixed: Option<Buf>,
    pub live: Live,
}

impl Slot {
    #[verifier::allow_in_spec]
    pub fn new() -> Slot
        returns
            (Slot { own: None, fixed: None, live: Live::Empty }),
    {
        Slot { own: None, fixed: None, live: Live::Empty }
    }

    /// The buffer that the state lives in is there, and every buffer has the
    /// given shape and holds single precision.
    pub open spec fn wf(self, shape: Shape) -> bool {
        &&& self.live == Live::Own ==> self.own is Some
        &&& self.live == Live::Fixed ==> self.fixed is Some
        &&& self.own matches Some(b) ==> b.shape == shape && b.dtype == DType::F32
        &&& self.fixed matches Some(b) ==> b.shape == shape && b.dtype == DType::F32
    }

    pub open spec fn current(self) -> Option<Buf> {
        match self.live {
            Live::Empty => None,
            Live::Own => self.own,
            Live::Fixed => self.fixed,
        }
    }

    pub fn buffer(&self) -> (r: Option<Buf>)
        ensures
            r == self.current(),
    {
        match self.live {
            Live::Empty => None,
            Live::Own => self.own,
            Live::Fixed => self.fixed,
        }
    }

    /// The buffer that state of shape `shape` goes into next.
    pub open spec fn target(self, buffers: Seq<Buf>, shape: Shape) -> Buf {
        match self.current() {
            Some(b) => b,
            None => match self.own {
                Some(b) => b,
                None => Buf { id: buffers.len() as usize, shape, dtype: DType::F32 },
            },
        }
    }

    pub open spec fn claimed(self, buffers: Seq<Buf>, shape: Shape) -> Slot {
        if self.live != Live::Empty {
            self
        } else {
            Slot { own: Some(self.target(buffers, shape)), fixed: self.fixed, live: Live::Own }
        }
    }

    pub open spec fn buffers_after(self, buffers: Seq<Buf>, shape: Shape) -> Seq<Buf> {
        if self.live == Live::Empty && self.own is None {
            buffers.push(self.target(buffers, shape))
        } else {
            buffers
        }
    }

    /// Contents once the state is there: what it was, or zeros.
    pub open spec fn bufs_after(self, buffers: Seq<Buf>, bufs: Bufs, shape: Shape) -> Bufs {
        if self.live == Live::Empty {
            let b = self.target(buffers, shape);
            bufs.insert(b.id as int, Term::Leaf(Op::Zeros { shape: b.shape, dtype: b.dtype }))
        } else {
            bufs
        }
    }

    /// Makes sure that the state lives somewhere, zeros if it did not.
    pub fn claim(&mut self, t: &mut Tape, shape: Shape) -> (b: Buf)
        requires
            old(self).wf(shape),
        ensures
            final(self).wf(shape),
            final(t).grew(*old(t)),
            b == old(self).target(old(t).buffers(), shape),
            *final(self) == old(self).claimed(old(t).buffers(), shape),
            final(self).current() == Some(b),
            b.shape == shape,
            b.dtype == DType::F32,
            final(t).buffers() == old(self).buffers_after(old(t).buffers(), shape),
            final(t).bufs() == old(self).bufs_after(old(t).buffers(), old(t).bufs(), shape),
    {
        match self.buffer() {
            Some(b) => b,
            None => {
                let b = match self.own {
                    Some(b) => {
                        t.fill(b, Op::Zeros { shape: b.shape, dtype: b.dtype });
                        b
                    },
                    None => t.allocate(shape, DType::F32),
                };
                self.own = Some(b);
                self.live = Live::Own;
                b
            },
        }
    }

    /// The state is gone; buffers stay for later.
    pub fn clear(&mut self)
        ensures
            *final(self) == (Slot { live: Live::Empty, ..*old(self) }),
    {
        self.live = Live::Empty;
    }

    /// The buffer of the static path made, unless it is there.
    pub open spec fn fixed_made(self, buffers: Seq<Buf>, bufs: Bufs, shape: Shape) -> (
        Slot,
        Seq<Buf>,
        Bufs,
    ) {
        if self.fixed is Some {
            (self, buffers, bufs)
        } else {
            let b = Buf { id: buffers.len() as usize, shape, dtype: DType::F32 };
            (
                Slot { fixed: Some(b), ..self },
                buffers.push(b),
                bufs.insert(b.id as int, Term::Leaf(Op::Zeros { shape, dtype: DType::F32 })),
            )
        }
    }

    pub fn make_fixed(&mut self, t: &mut Tape, shape: Shape)
        requires
            old(self).wf(shape),
        ensures
            final(self).wf(shape),
            final(self).fixed is Some,
            final(t).grew(*old(t)),
            (*final(self), final(t).buffers(), final(t).bufs()) == old(self).fixed_made(
                old(t).buffers(),
                old(t).bufs(),
                shape,
            ),
    {
        if self.fixed.is_none() {
            self.fixed = Some(t.allocate(shape, DType::F32));
        }
    }

    /// The state copied into the buffer of the static path, zeros where there is
    /// none.
    pub open spec fn moved(self, device: Device, bufs: Bufs) -> Result<Bufs, Error> {
        match self.fixed {
            None => Err(Error::StaticNotEnabled),
            Some(f) => {
                let src = match self.current() {
                    Some(b) => held(bufs, b),
                    None => leaf(Op::Zeros { shape: f.shape, dtype: DType::F32 }),
                };
                copy_effect(device, bufs, f, src)
            },
        }
    }

    /// Moves the state into the buffer of the static path, where it lives from
    /// then on, so that eager and replayed steps share storage.
    pub fn migrate(&mut self, t: &mut Tape, shape: Shape) -> (r: Result<(), Error>)
        requires
            old(self).wf(shape),
            shape.countable(),
        ensures
            final(self).wf(shape),
            final(t).wrote(*old(t)),
            match old(self).moved(old(t).on(), old(t).bufs()) {
                Err(e) => {
                    &&& r == Err::<(), Error>(e)
                    &&& *final(self) == *old(self)
                    &&& final(t).bufs() == old(t).bufs()
                },
                Ok(b) => {
                    &&& r == Ok::<(), Error>(())
                    &&& final(t).bufs() == b
                    &&& *final(self) == (Slot { live: Live::Fixed, ..*old(self) })
                },
            },
    {
        let f = match self.fixed {
            None => {
                return Err(Error::StaticNotEnabled);
            },
            Some(f) => f,
        };
        let src = match self.buffer() {
            Some(b) => t.read(b),
            None => t.leaf(Op::Zeros { shape: f.shape, dtype: DType::F32 }),
        };
        copy_into(t, f, src)?;
        self.live = Live::Fixed;
        Ok(())
    }

    /// The buffer of the static path zeroed, if it is there.
    pub open spec fn wiped(self, device: Device, bufs: Bufs) -> Result<Bufs, Error> {
        match self.fixed {
            None => Ok(bufs),
            Some(f) => copy_effect(
                device,
                bufs,
                f,
                leaf(Op::Zeros { shape: f.shape, dtype: DType::F32 }),
            ),
        }
    }

    /// Zeroes the buffer of the static path, if it is there.
    pub fn wipe(&self, t: &mut Tape, shape: Shape) -> (r: Result<(), Error>)
        requires
            self.wf(shape),
            shape.countable(),
        ensures
            final(t).wrote(*old(t)),
            ended(
                r,
                old(t).bufs(),
                final(t).bufs(),
                self.wiped(old(t).on(), old(t).bufs()),
            ),
    {
        match self.fixed {
            None => Ok(()),
            Some(f) => {
                let zeros = t.leaf(Op::Zeros { shape: f.shape, dtype: DType::F32 });
                copy_into(t, f, zeros)
            },
        }
    }
}

/// What a delta-net layer keeps between passes.
#[derive(Clone, Copy, PartialEq, Eq, Structural, Debug)]
pub struct GdnState {
    /// The last `kernel` inputs of the convolution, `[conv_dim, kernel]`.
    pub conv: Slot,
    /// Delta-rule state per value head, `[n_v_heads, d_v, d_k]`.
    pub s: Slot,
}

/// Gated delta-net: a causal depthwise convolution and a linear recurrence.
#[derive(Clone, Copy, PartialEq, Eq, Structural, Debug)]
pub struct GatedDeltaNet {
    pub in_proj_qkv: Proj,
    pub in_proj_z: Proj,
    pub in_proj_b: Proj,
    pub in_proj_a: Proj,
    pub conv1d_weight: Weight,
    pub dt_bias: Weight,
    pub neg_a: Weight,
    pub norm_weight: Weight,
    pub out_proj: Proj,
    pub n_k_heads: usize,
    pub n_v_heads: usize,
    pub d_k: usize,
    pub d_v: usize,
    pub conv_kernel: usize,
    pub eps: u64,
}

/// Output of the mixer and what it leaves behind.
pub struct GdnOut {
    pub out: Val,
    pub bufs: Bufs,
    pub buffers: Seq<Buf>,
    pub state: GdnState,
}

/// Why a layer stopped, and what it leaves behind.
pub struct GdnStop {
    pub error: Error,
    pub bufs: Bufs,
    pub buffers: Seq<Buf>,
    pub state: GdnState,
}

/// `a` plus a bias per column.
pub open spec fn biased(a: Val, bias: Val) -> Val {
    bin(Op::BroadcastAdd, a, un(Op::Reshape(d2(1, bias.shape.d0)), bias))
}

fn b_cast(t: &mut Tape, a: Tensor, bias: Tensor) -> (r: Tensor)
    requires
        old(t).has(a),
        old(t).has(bias),
    ensures
        final(t).computed(*old(t)),
        final(t).has(r),
        r@ == biased(a@, bias@),
{
    let b = t.un(Op::Reshape(d2(1, bias.shape.d0)), bias);
    t.bin(Op::BroadcastAdd, a, b)
}

/// `ln(1 + e^x)`
pub open spec fn softplus_of(x: Val) -> Val {
    un(Op::Log, un(Op::AddScalar(Scalar::Int(1)), un(Op::Exp, x)))
}

fn softplus(t: &mut Tape, x: Tensor) -> (r: Tensor)
    requires
        old(t).has(x),
    ensures
        final(t).computed(*old(t)),
        final(t).has(r),
        r@ == softplus_of(x@),
{
    let e = t.un(Op::Exp, x);
    let e = t.un(Op::AddScalar(Scalar::Int(1)), e);
    t.un(Op::Log, e)
}

/// `x * sigmoid(x)`
pub open spec fn silu_of(x: Val) -> Val {
    bin(Op::Mul, x, un(Op::Sigmoid, x))
}

fn silu_f32(t: &mut Tape, x: Tensor) -> (r: Tensor)
    requires
        old(t).has(x),
    ensures
        final(t).computed(*old(t)),
        final(t).has(r),
        r@ == silu_of(x@),
{
    let s = t.un(Op::Sigmoid, x);
    t.bin(Op::Mul, x, s)
}

/// Tap `j` of the convolution over `len` positions.
pub open spec fn tap(padded: Val, weight: Val, j: usize, len: usize) -> Val {
    bin(
        Op::BroadcastMul,
        un(Op::Narrow { dim: 1, start: j, len }, padded),
        un(Op::Narrow { dim: 1, start: j, len: 1 }, weight),
    )
}

fn record_tap(t: &mut Tape, padded: Tensor, weight: Tensor, j: usize, len: usize) -> (r: Tensor)
    requires
        old(t).has(padded),
        old(t).has(weight),
    ensures
        final(t).computed(*old(t)),
        final(t).has(r),
        r@ == tap(padded@, weight@, j, len),
{
    let p = t.un(Op::Narrow { dim: 1, start: j, len }, padded);
    let w = t.un(Op::Narrow { dim: 1, start: j, len: 1 }, weight);
    t.bin(Op::BroadcastMul, p, w)
}

/// `first` and the taps `from .. to` added to it, in order.
pub open spec fn taps(first: Val, padded: Val, weight: Val, len: usize, from: int, to: int) -> Val
    decreases to - from,
{
    if to <= from {
        first
    } else {
        bin(
            Op::Add,
            taps(first, padded, weight, len, from, to - 1),
            tap(padded, weight, (to - 1) as usize, len),
        )
    }
}

fn add_taps(
    t: &mut Tape,
    first: Tensor,
    padded: Tensor,
    weight: Tensor,
    len: usize,
    from: usize,
    to: usize,
) -> (r: Tensor)
    requires
        old(t).has(first),
        old(t).has(padded),
        old(t).has(weight),
        from <= to,
    ensures
        final(t).computed(*old(t)),
        final(t).has(r),
        r@ == taps(first@, padded@, weight@, len, from as int, to as int),
{
    let mut conv = first;
    let mut j: usize = from;
    while j < to
        invariant
            from <= j <= to,
            t.computed(*old(t)),
            t.has(conv),
            t.has(padded),
            t.has(weight),
            conv@ == taps(first@, padded@, weight@, len, from as int, j as int),
        decreases to - j,
    {
        let term = record_tap(t, padded, weight, j, len);
        conv = t.bin(Op::Add, conv, term);
        j += 1;
    }
    conv
}

/// The five inputs of the scan.
pub struct ScanIn {
    pub q: Val,
    pub k: Val,
    pub v: Val,
    pub beta: Val,
    pub decay: Val,
}

/// Rates of the recurrence, and the input of the output gate.
struct Rates {
    z: Tensor,
    beta: Tensor,
    decay: Tensor,
}

impl GatedDeltaNet {
    /// The convolution has a tap.
    pub open spec fn wf(self) -> bool {
        &&& self.conv_kernel >= 1
        &&& scan_shared_bytes(self.d_k as int) <= usize::MAX
        &&& self.conv_shape().countable()
        &&& self.s_shape().countable()
    }

    pub open spec fn key_dim(self) -> usize {
        sat_product(self.n_k_heads, self.d_k)
    }

    pub open spec fn value_dim(self) -> usize {
        sat_product(self.n_v_heads, self.d_v)
    }

    pub open spec fn conv_dim(self) -> usize {
        sat_sum(sat_product(2, self.key_dim()), self.value_dim())
    }

    pub open spec fn conv_shape(self) -> Shape {
        d2(self.conv_dim(), self.conv_kernel)
    }

    pub open spec fn s_shape(self) -> Shape {
        d3(self.n_v_heads, self.d_v, self.d_k)
    }

    fn dims(&self) -> (r: (usize, usize, usize))
        ensures
            r.0 == self.key_dim(),
            r.1 == self.value_dim(),
            r.2 == self.conv_dim(),
    {
        let key: usize = saturating_product(self.n_k_heads, self.d_k);
        let value: usize = saturating_product(self.n_v_heads, self.d_v);
        (key, value, saturating_sum(saturating_product(2, key), value))
    }

    pub open spec fn asked(
        self,
        l: Loader,
        cfg: Qwen35TextConfig,
        vb: Seq<char>,
        quant: Option<GgmlDType>,
    ) -> bool {
        let (h, n) = (cfg.hidden_size, cfg.linear_num_value_heads);
        let conv = pp(vb, "conv1d"@);
        &&& self.n_k_heads == cfg.linear_num_key_heads
        &&& self.n_v_heads == n
        &&& self.d_k == cfg.linear_key_head_dim
        &&& self.d_v == cfg.linear_value_head_dim
        &&& self.conv_kernel == cfg.linear_conv_kernel_dim
        &&& self.eps == cfg.rms_norm_eps
        &&& self.in_proj_qkv.asked(
            l,
            h,
            self.conv_dim(),
            false,
            pp(vb, "in_proj_qkv"@),
            suited(h, quant),
        )
        &&& self.in_proj_z.asked(
            l,
            h,
            self.value_dim(),
            false,
            pp(vb, "in_proj_z"@),
            suited(h, quant),
        )
        &&& self.in_proj_b.asked(l, h, n, false, pp(vb, "in_proj_b"@), None)
        &&& self.in_proj_a.asked(l, h, n, false, pp(vb, "in_proj_a"@), None)
        &&& self.out_proj.asked(
            l,
            self.value_dim(),
            h,
            false,
            pp(vb, "out_proj"@),
            suited(self.value_dim(), quant),
        )
        &&& l.gives(
            self.conv1d_weight,
            changed(
                pp(conv, "weight"@),
                d3(self.conv_dim(), 1, self.conv_kernel),
                Recipe::Squeezed,
                self.conv_shape(),
                DType::F32,
            ),
        )
        &&& l.gives(
            self.neg_a,
            changed(pp(vb, "A_log"@), d1(n), Recipe::NegExp, d1(n), DType::F32),
        )
        &&& l.gives(
            self.dt_bias,
            changed(pp(vb, "dt_bias"@), d1(n), Recipe::Converted, d1(n), DType::F32),
        )
        &&& l.gives(
            self.norm_weight,
            changed(
                pp(pp(vb, "norm"@), "weight"@),
                d1(self.d_v),
                Recipe::Converted,
                d1(self.d_v),
                DType::F32,
            ),
        )
    }

    pub fn new(l: &mut Loader, cfg: &Qwen35TextConfig, vb: &VarPath, quant: Option<GgmlDType>) -> (r:
        GatedDeltaNet)
        requires
            cfg.valid(),
        ensures
            final(l).grew(*old(l)),
            final(l).added(*old(l), 9),
            r.asked(*final(l), *cfg, vb@, quant),
            r.wf(),
    {
        let (h, n) = (cfg.hidden_size, cfg.linear_num_value_heads);
        let (d_k, d_v, kernel) = (
            cfg.linear_key_head_dim,
            cfg.linear_value_head_dim,
            cfg.linear_conv_kernel_dim,
        );
        let key_dim: usize = saturating_product(cfg.linear_num_key_heads, d_k);
        let value_dim: usize = saturating_product(n, d_v);
        let conv_dim: usize = saturating_sum(saturating_product(2, key_dim), value_dim);
        let conv1d_weight = l.get_changed(
            &vb.pp("conv1d"),
            "weight",
            d3(conv_dim, 1, kernel),
            Recipe::Squeezed,
            d2(conv_dim, kernel),
            DType::F32,
        );
        let neg_a = l.get_changed(vb, "A_log", d1(n), Recipe::NegExp, d1(n), DType::F32);
        let in_proj_qkv = qproj(l, h, conv_dim, &vb.pp("in_proj_qkv"), quant);
        let in_proj_z = qproj(l, h, value_dim, &vb.pp("in_proj_z"), quant);
        let in_proj_b = Proj::dense(l, h, n, false, &vb.pp("in_proj_b"));
        let in_proj_a = Proj::dense(l, h, n, false, &vb.pp("in_proj_a"));
        let dt_bias = l.get_changed(vb, "dt_bias", d1(n), Recipe::Converted, d1(n), DType::F32);
        let norm_weight = l.get_changed(
            &vb.pp("norm"),
            "weight",
            d1(d_v),
            Recipe::Converted,
            d1(d_v),
            DType::F32,
        );
        let out_proj = qproj(l, value_dim, h, &vb.pp("out_proj"), quant);
        GatedDeltaNet {
            in_proj_qkv,
            in_proj_z,
            in_proj_b,
            in_proj_a,
            conv1d_weight,
            dt_bias,
            neg_a,
            norm_weight,
            out_proj,
            n_k_heads: cfg.linear_num_key_heads,
            n_v_heads: n,
            d_k,
            d_v,
            conv_kernel: kernel,
            eps: cfg.rms_norm_eps,
        }
    }

    /// A projection in single precision.
    pub open spec fn wide(p: Proj, x: Val) -> Val {
        un(Op::ToDType(DType::F32), p.apply(x))
    }

    /// Write strength: `sigmoid(b)`.
    pub open spec fn beta(self, x: Val) -> Val {
        un(Op::Sigmoid, Self::wide(self.in_proj_b, x))
    }

    /// Decay: `exp(-exp(A) * softplus(a + dt))`.
    pub open spec fn decay(self, x: Val) -> Val {
        let sp = softplus_of(
            biased(Self::wide(self.in_proj_a, x), leaf(Op::Param(self.dt_bias))),
        );
        let neg_a = un(Op::Reshape(d2(1, self.n_v_heads)), leaf(Op::Param(self.neg_a)));
        un(Op::Exp, bin(Op::BroadcastMul, sp, neg_a))
    }

    fn rates(&self, t: &mut Tape, x_flat: Tensor) -> (r: Rates)
        requires
            old(t).has(x_flat),
        ensures
            final(t).computed(*old(t)),
            final(t).has(r.z),
            final(t).has(r.beta),
            final(t).has(r.decay),
            r.z@ == Self::wide(self.in_proj_z, x_flat@),
            r.beta@ == self.beta(x_flat@),
            r.decay@ == self.decay(x_flat@),
    {
        let z = self.in_proj_z.forward(t, x_flat);
        let z = t.un(Op::ToDType(DType::F32), z);
        let b_raw = self.in_proj_b.forward(t, x_flat);
        let b_raw = t.un(Op::ToDType(DType::F32), b_raw);
        let a_raw = self.in_proj_a.forward(t, x_flat);
        let a_raw = t.un(Op::ToDType(DType::F32), a_raw);
        let beta = t.un(Op::Sigmoid, b_raw);
        let dt = t.leaf(Op::Param(self.dt_bias));
        let sp = b_cast(t, a_raw, dt);
        let sp = softplus(t, sp);
        let neg_a = t.leaf(Op::Param(self.neg_a));
        let neg_a = t.un(Op::Reshape(d2(1, self.n_v_heads)), neg_a);
        let decay = t.bin(Op::BroadcastMul, sp, neg_a);
        let decay = t.un(Op::Exp, decay);
        Rates { z, beta, decay }
    }

    /// Inputs of the scan, from the convolved projections `[conv_dim, len]`.
    pub open spec fn scan_in(self, x_flat: Val, conv: Val, len: usize) -> ScanIn {
        let key_dim = self.key_dim();
        let conved = un(Op::Transpose(0, 1), silu_of(conv));
        let part = |start: usize, n: usize, heads: usize, d: usize|
            un(Op::Reshape(d3(len, heads, d)), un(Op::Narrow { dim: 1, start, len: n }, conved));
        let q = part(0, key_dim, self.n_k_heads, self.d_k);
        let k = part(key_dim, key_dim, self.n_k_heads, self.d_k);
        let v = part(sat_product(2, key_dim), self.value_dim(), self.n_v_heads, self.d_v);
        ScanIn {
            q: un(Op::MulScalar(Scalar::PowNegHalf(self.d_k)), l2_normed(q)),
            k: l2_normed(k),
            v,
            beta: self.beta(x_flat),
            decay: self.decay(x_flat),
        }
    }

    /// Output of the layer, from that of the scan.
    pub open spec fn output(self, x_flat: Val, o: Val, len: usize, dtype: DType) -> Val {
        let z = un(
            Op::Reshape(d3(len, self.n_v_heads, self.d_v)),
            Self::wide(self.in_proj_z, x_flat),
        );
        let w = un(Op::Reshape(d3(1, 1, self.d_v)), leaf(Op::Param(self.norm_weight)));
        let normed = bin(Op::BroadcastMul, rms_normalized(o, Scalar::F64(self.eps)), w);
        let gated = bin(Op::Mul, normed, silu_of(z));
        self.out_proj.apply(
            un(Op::ToDType(dtype), un(Op::Reshape(d3(1, len, self.value_dim())), gated)),
        )
    }

    /// Runs the scan in `sbuf` and everything after it.
    pub open spec fn scanned(
        self,
        device: Device,
        x_flat: Val,
        conv: Val,
        len: usize,
        dtype: DType,
        sbuf: Buf,
        bufs: Bufs,
    ) -> Result<(Val, Bufs), Error> {
        let i = self.scan_in(x_flat, conv, len);
        match scan_error(device, i.q, i.k, i.v, i.beta, i.decay, sbuf) {
            Some(e) => Err(e),
            None => {
                let s = bufs[sbuf.id as int];
                let o = scan_output(i.q, i.k, i.v, i.beta, i.decay, s);
                Ok(
                    (
                        self.output(x_flat, o, len, dtype),
                        bufs.insert(
                            sbuf.id as int,
                            scan_state(i.q, i.k, i.v, i.beta, i.decay, s),
                        ),
                    ),
                )
            },
        }
    }

    fn scan_on(
        &self,
        t: &mut Tape,
        x_flat: Tensor,
        rates: Rates,
        conv: Tensor,
        len: usize,
        dtype: DType,
        sbuf: Buf,
    ) -> (r: Result<Tensor, Error>)
        requires
            self.wf(),
            old(t).has(x_flat),
            old(t).has(conv),
            old(t).has(rates.z),
            old(t).has(rates.beta),
            old(t).has(rates.decay),
            rates.z@ == Self::wide(self.in_proj_z, x_flat@),
            rates.beta@ == self.beta(x_flat@),
            rates.decay@ == self.decay(x_flat@),
        ensures
            final(t).wrote(*old(t)),
            match self.scanned(old(t).on(), x_flat@, conv@, len, dtype, sbuf, old(t).bufs()) {
                Err(e) => r == Err::<Tensor, Error>(e) && final(t).bufs() == old(t).bufs(),
                Ok((y, b)) => {
                    &&& r is Ok
                    &&& final(t).has(r->Ok_0)
                    &&& r->Ok_0@ == y
                    &&& final(t).bufs() == b
                },
            },
    {
        let (key_dim, value_dim, _conv_dim) = self.dims();
        let conved = silu_f32(t, conv);
        let conved = t.un(Op::Transpose(0, 1), conved);
        proof {
            lemma_contiguous(conved@);
        }
        let conved = t.un(Op::Contiguous, conved);
        let q = t.un(Op::Narrow { dim: 1, start: 0, len: key_dim }, conved);
        let q = t.un(Op::Reshape(d3(len, self.n_k_heads, self.d_k)), q);
        let k = t.un(Op::Narrow { dim: 1, start: key_dim, len: key_dim }, conved);
        let k = t.un(Op::Reshape(d3(len, self.n_k_heads, self.d_k)), k);
        let start: usize = saturating_product(2, key_dim);
        let v = t.un(Op::Narrow { dim: 1, start, len: value_dim }, conved);
        let v = t.un(Op::Reshape(d3(len, self.n_v_heads, self.d_v)), v);
        let ghost q_raw = q@;
        let q = l2norm_last(t, q);
        let q = t.un(Op::MulScalar(Scalar::PowNegHalf(self.d_k)), q);
        let k = l2norm_last(t, k);
        proof {
            lemma_contiguous(q@);
            lemma_contiguous(k@);
            lemma_contiguous(v@);
            lemma_contiguous(rates.beta@);
            lemma_contiguous(rates.decay@);
            assert(q@.shape.d2 == self.d_k) by {
                reveal(un);
                reveal(bin);
                assert(q_raw.shape.d2 == self.d_k);
            }
        }
        let q = t.un(Op::Contiguous, q);
        let k = t.un(Op::Contiguous, k);
        let v = t.un(Op::Contiguous, v);
        let beta = t.un(Op::Contiguous, rates.beta);
        let decay = t.un(Op::Contiguous, rates.decay);
        let o = gdn_scan(t, q, k, v, beta, decay, sbuf)?;
        let o = rms_normalize(t, o, Scalar::F64(self.eps));
        let w = t.leaf(Op::Param(self.norm_weight));
        let w = t.un(Op::Reshape(d3(1, 1, self.d_v)), w);
        let o = t.bin(Op::BroadcastMul, o, w);
        let z = t.un(Op::Reshape(d3(len, self.n_v_heads, self.d_v)), rates.z);
        let zg = silu_f32(t, z);
        let o = t.bin(Op::Mul, o, zg);
        let o = t.un(Op::Reshape(d3(1, len, value_dim)), o);
        let o = t.un(Op::ToDType(dtype), o);
        Ok(self.out_proj.forward(t, o))
    }

    /// Every piece of state has the layer's shapes.
    pub open spec fn state_ok(self, s: GdnState) -> bool {
        s.conv.wf(self.conv_shape()) && s.s.wf(self.s_shape())
    }

    /// The chunk as rows.
    pub open spec fn rows(x: Val) -> Val {
        un(Op::Reshape(d2(x.shape.d1, sat_product(x.shape.d0, x.shape.d2))), x)
    }

    /// Inputs of the convolution, with the last `kernel - 1` of what came
    /// before in front: zeros at the start.
    pub open spec fn padded(self, x_flat: Val, state: GdnState, bufs: Bufs) -> Val {
        let kept = (self.conv_kernel - 1) as usize;
        let prev = match state.conv.current() {
            Some(b) => un(Op::Narrow { dim: 1, start: 1, len: kept }, held(bufs, b)),
            None => leaf(Op::Zeros { shape: d2(self.conv_dim(), kept), dtype: DType::F32 }),
        };
        bin(
            Op::Cat(1),
            prev,
            un(Op::Transpose(0, 1), Self::wide(self.in_proj_qkv, x_flat)),
        )
    }

    /// A chunk `x` (`[1, len, hidden]`).
    pub open spec fn pass(
        self,
        device: Device,
        x: Val,
        state: GdnState,
        buffers: Seq<Buf>,
        bufs: Bufs,
    ) -> Result<GdnOut, GdnStop> {
        if x.shape.rank != 3 {
            let error = Error::UnexpectedRank { expected: 3, got: x.shape.rank };
            Err(GdnStop { error, bufs, buffers, state })
        } else {
            let len = x.shape.d1;
            let x_flat = Self::rows(x);
            let padded = self.padded(x_flat, state, bufs);
            let w = leaf(Op::Param(self.conv1d_weight));
            let window = un(
                Op::Narrow {
                    dim: 1,
                    start: if len == 0 { 0 } else { (len - 1) as usize },
                    len: self.conv_kernel,
                },
                padded,
            );
            let cbuf = state.conv.target(buffers, self.conv_shape());
            let buffers1 = state.conv.buffers_after(buffers, self.conv_shape());
            let bufs1 = state.conv.bufs_after(buffers, bufs, self.conv_shape()).insert(
                cbuf.id as int,
                window.term,
            );
            let sbuf = state.s.target(buffers1, self.s_shape());
            let buffers2 = state.s.buffers_after(buffers1, self.s_shape());
            let bufs2 = state.s.bufs_after(buffers1, bufs1, self.s_shape());
            let conv = taps(
                tap(padded, w, 0, len),
                padded,
                w,
                len,
                1,
                self.conv_kernel as int,
            );
            let after = GdnState {
                conv: state.conv.claimed(buffers, self.conv_shape()),
                s: state.s.claimed(buffers1, self.s_shape()),
            };
            match self.scanned(device, x_flat, conv, len, x.dtype, sbuf, bufs2) {
                Err(error) => Err(
                    GdnStop { error, bufs: bufs2, buffers: buffers2, state: after },
                ),
                Ok((out, b)) => Ok(GdnOut { out, bufs: b, buffers: buffers2, state: after }),
            }
        }
    }

    /// `r` and the state after the call are what `want` says.
    pub open spec fn gave(
        r: Result<Tensor, Error>,
        t: Tape,
        state: GdnState,
        want: Result<GdnOut, GdnStop>,
    ) -> bool {
        match want {
            Err(x) => {
                &&& r == Err::<Tensor, Error>(x.error)
                &&& t.bufs() == x.bufs
                &&& t.buffers() == x.buffers
                &&& state == x.state
            },
            Ok(o) => {
                &&& r is Ok
                &&& t.has(r->Ok_0)
                &&& r->Ok_0@ == o.out
                &&& t.bufs() == o.bufs
                &&& t.buffers() == o.buffers
                &&& state == o.state
            },
        }
    }

    /// One step of decoding: a chunk of length one.
    pub fn forward_step(&self, t: &mut Tape, state: &mut GdnState, x: Tensor) -> (r: Result<
        Tensor,
        Error,
    >)
        requires
            self.wf(),
            self.state_ok(*old(state)),
            old(t).has(x),
        ensures
            final(t).grew(*old(t)),
            self.state_ok(*final(state)),
            Self::gave(
                r,
                *final(t),
                *final(state),
                self.pass(old(t).on(), x@, *old(state), old(t).buffers(), old(t).bufs()),
            ),
    {
        self.forward_seq(t, state, x)
    }

    /// The layer over a whole chunk: projections, convolution, norms and gates
    /// for all positions at once, and the recurrence in one launch.
    pub fn forward_seq(&self, t: &mut Tape, state: &mut GdnState, x: Tensor) -> (r: Result<
        Tensor,
        Error,
    >)
        requires
            self.wf(),
            self.state_ok(*old(state)),
            old(t).has(x),
        ensures
            final(t).grew(*old(t)),
            self.state_ok(*final(state)),
            Self::gave(
                r,
                *final(t),
                *final(state),
                self.pass(old(t).on(), x@, *old(state), old(t).buffers(), old(t).bufs()),
            ),
    {
        let (_b, t_len, _h) = x.dims3()?;
        let (_key_dim, _value_dim, conv_dim) = self.dims();
        let shape = d2(t_len, saturating_product(x.shape.d0, x.shape.d2));
        let x_flat = t.un(Op::Reshape(shape), x);
        let qkv = self.in_proj_qkv.forward(t, x_flat);
        let qkv = t.un(Op::ToDType(DType::F32), qkv);
        let rates = self.rates(t, x_flat);

        let qkv_t = t.un(Op::Transpose(0, 1), qkv);
        proof {
            lemma_contiguous(qkv_t@);
        }
        let qkv_t = t.un(Op::Contiguous, qkv_t);
        let kept: usize = self.conv_kernel - 1;
        let prev = match state.conv.buffer() {
            Some(b) => {
                let w = t.read(b);
                t.un(Op::Narrow { dim: 1, start: 1, len: kept }, w)
            },
            None => t.leaf(Op::Zeros { shape: d2(conv_dim, kept), dtype: DType::F32 }),
        };
        let padded = t.bin(Op::Cat(1), prev, qkv_t);
        let start: usize = t_len.saturating_sub(1);
        let window = t.un(Op::Narrow { dim: 1, start, len: self.conv_kernel }, padded);
        proof {
            lemma_contiguous(window@);
        }
        let window = t.un(Op::Contiguous, window);
        let cbuf = state.conv.claim(t, d2(conv_dim, self.conv_kernel));
        t.store(cbuf, window);
        let w = t.leaf(Op::Param(self.conv1d_weight));
        let conv = record_tap(t, padded, w, 0, t_len);
        let conv = add_taps(t, conv, padded, w, t_len, 1, self.conv_kernel);
        let sbuf = state.s.claim(t, d3(self.n_v_heads, self.d_v, self.d_k));
        self.scan_on(t, x_flat, rates, conv, t_len, x.dtype, sbuf)
    }

    /// Buffers of the static path made, convolution first.
    pub open spec fn enabled(self, state: GdnState, buffers: Seq<Buf>, bufs: Bufs) -> (
        GdnState,
        Seq<Buf>,
        Bufs,
    ) {
        let (conv, buffers1, bufs1) = state.conv.fixed_made(buffers, bufs, self.conv_shape());
        let (s, buffers2, bufs2) = state.s.fixed_made(buffers1, bufs1, self.s_shape());
        (GdnState { conv, s }, buffers2, bufs2)
    }

    /// Makes the address-stable buffers of the static path.
    pub fn enable_static(&self, t: &mut Tape, state: &mut GdnState)
        requires
            self.state_ok(*old(state)),
        ensures
            self.state_ok(*final(state)),
            final(state).conv.fixed is Some,
            final(state).s.fixed is Some,
            final(t).grew(*old(t)),
            (*final(state), final(t).buffers(), final(t).bufs()) == self.enabled(
                *old(state),
                old(t).buffers(),
                old(t).bufs(),
            ),
    {
        let (_key_dim, _value_dim, conv_dim) = self.dims();
        state.conv.make_fixed(t, d2(conv_dim, self.conv_kernel));
        state.s.make_fixed(t, d3(self.n_v_heads, self.d_v, self.d_k));
    }

    /// State moved to the buffers of the static path, or how far that got.
    pub open spec fn migrated(device: Device, state: GdnState, bufs: Bufs) -> Result<
        (GdnState, Bufs),
        (Error, GdnState, Bufs),
    > {
        match state.conv.moved(device, bufs) {
            Err(e) => Err((e, state, bufs)),
            Ok(b) => {
                let half = GdnState {
                    conv: Slot { live: Live::Fixed, ..state.conv },
                    s: state.s,
                };
                match state.s.moved(device, b) {
                    Err(e) => Err((e, half, b)),
                    Ok(c) => Ok(
                        (GdnState { s: Slot { live: Live::Fixed, ..state.s }, ..half }, c),
                    ),
                }
            },
        }
    }

    /// Copies the state of a prefill into the address-stable buffers, where it
    /// lives from then on.
    pub fn migrate_state_to_static(&self, t: &mut Tape, state: &mut GdnState) -> (r: Result<
        (),
        Error,
    >)
        requires
            self.wf(),
            self.state_ok(*old(state)),
        ensures
            self.state_ok(*final(state)),
            final(t).wrote(*old(t)),
            match Self::migrated(old(t).on(), *old(state), old(t).bufs()) {
                Err((e, s, b)) => {
                    &&& r == Err::<(), Error>(e)
                    &&& *final(state) == s
                    &&& final(t).bufs() == b
                },
                Ok((s, b)) => r == Ok::<(), Error>(()) && *final(state) == s && final(t).bufs()
                    == b,
            },
    {
        let (_key_dim, _value_dim, conv_dim) = self.dims();
        state.conv.migrate(t, d2(conv_dim, self.conv_kernel))?;
        state.s.migrate(t, d3(self.n_v_heads, self.d_v, self.d_k))
    }

    /// The buffers of the static path zeroed, convolution first.
    pub open spec fn wiped(device: Device, state: GdnState, bufs: Bufs) -> Result<Bufs, Refused> {
        match linked(bufs, state.conv.wiped(device, bufs)) {
            Err(x) => Err(x),
            Ok(b) => linked(b, state.s.wiped(device, b)),
        }
    }

    /// Zeroes the buffers of the static path.
    pub fn wipe_static(&self, t: &mut Tape, state: &GdnState) -> (r: Result<(), Error>)
        requires
            self.wf(),
            self.state_ok(*state),
        ensures
            final(t).wrote(*old(t)),
            chain_ended(r, final(t).bufs(), Self::wiped(old(t).on(), *state, old(t).bufs())),
    {
        let (_key_dim, _value_dim, conv_dim) = self.dims();
        state.conv.wipe(t, d2(conv_dim, self.conv_kernel))?;
        state.s.wipe(t, d3(self.n_v_heads, self.d_v, self.d_k))
    }

    /// Forgets the state.
    pub fn clear_state(state: &mut GdnState)
        ensures
            *final(state) == (GdnState {
                conv: Slot { live: Live::Empty, ..old(state).conv },
                s: Slot { live: Live::Empty, ..old(state).s },
            }),
    {
        state.conv.clear();
        state.s.clear();
    }

    /// The window of the static path rolled by one input.
    pub open spec fn rolled(self, x_flat: Val, cbuf: Buf, bufs: Bufs) -> Val {
        let kept = (self.conv_kernel - 1) as usize;
        bin(
            Op::Cat(1),
            un(Op::Narrow { dim: 1, start: 1, len: kept }, held(bufs, cbuf)),
            un(Op::Transpose(0, 1), Self::wide(self.in_proj_qkv, x_flat)),
        )
    }

    /// The input of a static step as one row.
    pub open spec fn row(x: Val) -> Val {
        let all = sat_product(sat_product(x.shape.d0, x.shape.d1), x.shape.d2);
        un(Op::Reshape(d2(1, all)), x)
    }

    /// One token on the address-stable buffers.
    pub open spec fn step_pass(
        self,
        device: Device,
        x: Val,
        state: GdnState,
        buffers: Seq<Buf>,
        bufs: Bufs,
    ) -> Result<GdnOut, GdnStop> {
        match (state.conv.fixed, state.s.fixed) {
            (Some(cbuf), Some(sbuf)) => {
                let x_flat = Self::row(x);
                let padded = self.rolled(x_flat, cbuf, bufs);
                let w = leaf(Op::Param(self.conv1d_weight));
                let last = (self.conv_kernel - 1) as usize;
                let conv = taps(tap(padded, w, last, 1), padded, w, 1, 0, last as int);
                match copy_effect(device, bufs, cbuf, padded) {
                    Err(error) => Err(GdnStop { error, bufs, buffers, state }),
                    Ok(b) => match self.scanned(device, x_flat, conv, 1, x.dtype, sbuf, b) {
                        Err(error) => Err(GdnStop { error, bufs: b, buffers, state }),
                        Ok((out, b)) => Ok(GdnOut { out, bufs: b, buffers, state }),
                    },
                }
            },
            _ => Err(GdnStop { error: Error::StaticNotEnabled, bufs, buffers, state }),
        }
    }

    /// One-token step that can be replayed: the convolution window rolls in
    /// place on its fixed buffer.
    pub fn forward_static_step(&self, t: &mut Tape, state: &GdnState, x: Tensor) -> (r: Result<
        Tensor,
        Error,
    >)
        requires
            self.wf(),
            self.state_ok(*state),
            old(t).has(x),
        ensures
            final(t).wrote(*old(t)),
            Self::gave(
                r,
                *final(t),
                *state,
                self.step_pass(old(t).on(), x@, *state, old(t).buffers(), old(t).bufs()),
            ),
    {
        let (cbuf, sbuf) = match (state.conv.fixed, state.s.fixed) {
            (Some(c), Some(s)) => (c, s),
            _ => {
                return Err(Error::StaticNotEnabled);
            },
        };
        let all: usize = saturating_product(
            saturating_product(x.shape.d0, x.shape.d1),
            x.shape.d2,
        );
        let x_flat = t.un(Op::Reshape(d2(1, all)), x);
        let qkv = self.in_proj_qkv.forward(t, x_flat);
        let qkv = t.un(Op::ToDType(DType::F32), qkv);
        let rates = self.rates(t, x_flat);
        let qkv_t = t.un(Op::Transpose(0, 1), qkv);
        proof {
            lemma_contiguous(qkv_t@);
        }
        let qkv_t = t.un(Op::Contiguous, qkv_t);
        let kept: usize = self.conv_kernel - 1;
        let prev = t.read(cbuf);
        let prev = t.un(Op::Narrow { dim: 1, start: 1, len: kept }, prev);
        let padded = t.bin(Op::Cat(1), prev, qkv_t);
        proof {
            lemma_contiguous(padded@);
            assert(x_flat@.shape == d2(1, all)) by {
                reveal(un);
            }
            self.lemma_rolled_shape(x_flat@, cbuf, t.bufs());
        }
        let padded = t.un(Op::Contiguous, padded);
        copy_into(t, cbuf, padded)?;
        let w = t.leaf(Op::Param(self.conv1d_weight));
        let conv = record_tap(t, padded, w, kept, 1);
        let conv = add_taps(t, conv, padded, w, 1, 0, kept);
        self.scan_on(t, x_flat, rates, conv, 1, x.dtype, sbuf)
    }

    /// A rolled window has the shape of the window.
    proof fn lemma_rolled_shape(self, x_flat: Val, cbuf: Buf, bufs: Bufs)
        requires
            self.wf(),
            cbuf.shape == self.conv_shape(),
            x_flat.shape.rank == 2,
            x_flat.shape.d0 == 1,
        ensures
            self.rolled(x_flat, cbuf, bufs).shape == cbuf.shape,
    {
        reveal(un);
        reveal(bin);
    }
}

} // verus!
