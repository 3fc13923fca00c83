//! What layers give of a sequence in pieces.
use vstd::prelude::*;

use crate::dtype::{DType, Device};
use crate::error::Error;
use crate::fused::rms_normalized;
use crate::loader::Proj;
use crate::positions::{
    law_scan_splits, lemma_bin_extent, lemma_joined, lemma_laid_out, lemma_one_run, lemma_same_bin,
    lemma_same_part, lemma_same_run, lemma_same_un, lemma_sliced, lemma_un_extent, sideways,
    Meaning, Scan,
};
use crate::qwen3_5::delta::{
    biased, silu_of, softplus_of, tap, taps, GatedDeltaNet, GdnOut, GdnState, GdnStop, Live, ScanIn,
    Slot,
};
use crate::qwen3_5::norm::{l2_normed, L2_EPS};
use crate::shape::{d2, d3, sat_product};
use crate::static_decode::{scan_error, scan_shared_bytes};
use crate::tape::{bin, held, leaf, un, Buf, Bufs, Op, Scalar, Term, Val};

verus! {

/// A projection of the same is the same, and has as many positions.
pub proof fn lemma_same_proj<V>(m: Meaning<V>, p: Proj, a: Val, i: int, b: Val, j: int)
    requires
        m.same(a, i, b, j),
    ensures
        m.same(p.apply(a), i, p.apply(b), j),
        m.len(p.apply(a).term) == m.len(a.term),
        sideways(p.apply(a).term) == sideways(a.term),
{
    match p {
        Proj::Plain { weight, bias: None } => {
            lemma_same_un(m, Op::Linear(weight), a, i, b, j);
            lemma_un_extent(m, Op::Linear(weight), a);
        },
        Proj::Plain { weight, bias: Some(c) } => {
            lemma_same_un(m, Op::LinearBias(weight, c), a, i, b, j);
            lemma_un_extent(m, Op::LinearBias(weight, c), a);
        },
        Proj::Quant { weight, bias } => {
            let op = Op::QMatMul(weight);
            lemma_same_un(m, op, a, i, b, j);
            lemma_un_extent(m, op, a);
            if let Some(c) = bias {
                let c = leaf(Op::Param(c));
                lemma_same_bin(m, Op::BroadcastAdd, (un(op, a), c), i, (un(op, b), c), j);
                lemma_bin_extent(m, Op::BroadcastAdd, un(op, a), c);
            }
        },
    }
}

/// Values that hold the same, of one rank.
pub proof fn lemma_same_rms<V>(m: Meaning<V>, eps: Scalar, a: Val, i: int, b: Val, j: int)
    requires
        m.same(a, i, b, j),
        a.shape.rank == b.shape.rank,
    ensures
        m.same(rms_normalized(a, eps), i, rms_normalized(b, eps), j),
{
    let axis = a.shape.last_axis();
    let (sa, sb) = (un(Op::Sqr, a), un(Op::Sqr, b));
    lemma_same_un(m, Op::Sqr, a, i, b, j);
    let (ma, mb) = (un(Op::MeanKeep(axis), sa), un(Op::MeanKeep(axis), sb));
    lemma_same_un(m, Op::MeanKeep(axis), sa, i, sb, j);
    let (ea, eb) = (un(Op::AddScalar(eps), ma), un(Op::AddScalar(eps), mb));
    lemma_same_un(m, Op::AddScalar(eps), ma, i, mb, j);
    lemma_same_un(m, Op::Sqrt, ea, i, eb, j);
    lemma_same_bin(m, Op::BroadcastDiv, (a, un(Op::Sqrt, ea)), i, (b, un(Op::Sqrt, eb)), j);
}

proof fn lemma_same_l2<V>(m: Meaning<V>, a: Val, i: int, b: Val, j: int)
    requires
        m.same(a, i, b, j),
        a.shape.rank == b.shape.rank,
    ensures
        m.same(l2_normed(a), i, l2_normed(b), j),
{
    let axis = a.shape.last_axis();
    let eps = Scalar::F64(L2_EPS);
    let (sa, sb) = (un(Op::Sqr, a), un(Op::Sqr, b));
    lemma_same_un(m, Op::Sqr, a, i, b, j);
    let (ka, kb) = (un(Op::SumKeep(axis), sa), un(Op::SumKeep(axis), sb));
    lemma_same_un(m, Op::SumKeep(axis), sa, i, sb, j);
    let (ra, rb) = (un(Op::Sqrt, ka), un(Op::Sqrt, kb));
    lemma_same_un(m, Op::Sqrt, ka, i, kb, j);
    lemma_same_un(m, Op::AddScalar(eps), ra, i, rb, j);
    lemma_same_bin(
        m,
        Op::BroadcastDiv,
        (a, un(Op::AddScalar(eps), ra)),
        i,
        (b, un(Op::AddScalar(eps), rb)),
        j,
    );
}

proof fn lemma_same_silu<V>(m: Meaning<V>, a: Val, i: int, b: Val, j: int)
    requires
        m.same(a, i, b, j),
    ensures
        m.same(silu_of(a), i, silu_of(b), j),
        sideways(silu_of(a).term) == sideways(a.term),
{
    lemma_same_un(m, Op::Sigmoid, a, i, b, j);
    lemma_same_bin(m, Op::Mul, (a, un(Op::Sigmoid, a)), i, (b, un(Op::Sigmoid, b)), j);
    lemma_un_extent(m, Op::Sigmoid, a);
    lemma_bin_extent(m, Op::Mul, a, un(Op::Sigmoid, a));
}

/// The rates of a position depend on what the input holds there.
pub(crate) proof fn lemma_same_rates<V>(m: Meaning<V>, g: GatedDeltaNet, a: Val, i: int, b: Val, j: int)
    requires
        m.same(a, i, b, j),
    ensures
        m.same(g.beta(a), i, g.beta(b), j),
        m.same(g.decay(a), i, g.decay(b), j),
        m.same(
            GatedDeltaNet::wide(g.in_proj_z, a),
            i,
            GatedDeltaNet::wide(g.in_proj_z, b),
            j,
        ),
        m.same(
            GatedDeltaNet::wide(g.in_proj_qkv, a),
            i,
            GatedDeltaNet::wide(g.in_proj_qkv, b),
            j,
        ),
        m.len(g.beta(a).term) == m.len(a.term),
{
    lemma_same_proj(m, g.in_proj_b, a, i, b, j);
    lemma_same_proj(m, g.in_proj_a, a, i, b, j);
    lemma_same_proj(m, g.in_proj_z, a, i, b, j);
    lemma_same_proj(m, g.in_proj_qkv, a, i, b, j);
    let to = Op::ToDType(DType::F32);
    lemma_same_un(m, to, g.in_proj_b.apply(a), i, g.in_proj_b.apply(b), j);
    lemma_same_un(m, to, g.in_proj_a.apply(a), i, g.in_proj_a.apply(b), j);
    lemma_same_un(m, to, g.in_proj_z.apply(a), i, g.in_proj_z.apply(b), j);
    lemma_same_un(m, to, g.in_proj_qkv.apply(a), i, g.in_proj_qkv.apply(b), j);
    let (ba, bb) = (
        GatedDeltaNet::wide(g.in_proj_b, a),
        GatedDeltaNet::wide(g.in_proj_b, b),
    );
    lemma_same_un(m, Op::Sigmoid, ba, i, bb, j);
    lemma_un_extent(m, to, g.in_proj_b.apply(a));
    lemma_un_extent(m, Op::Sigmoid, ba);
    let (wa, wb) = (
        GatedDeltaNet::wide(g.in_proj_a, a),
        GatedDeltaNet::wide(g.in_proj_a, b),
    );
    let dt = leaf(Op::Param(g.dt_bias));
    let flat = Op::Reshape(d2(1, dt.shape.d0));
    lemma_same_un(m, flat, dt, i, dt, j);
    lemma_same_bin(m, Op::BroadcastAdd, (wa, un(flat, dt)), i, (wb, un(flat, dt)), j);
    let (sa, sb) = (biased(wa, dt), biased(wb, dt));
    lemma_same_un(m, Op::Exp, sa, i, sb, j);
    let one = Op::AddScalar(Scalar::Int(1));
    lemma_same_un(m, one, un(Op::Exp, sa), i, un(Op::Exp, sb), j);
    lemma_same_un(m, Op::Log, un(one, un(Op::Exp, sa)), i, un(one, un(Op::Exp, sb)), j);
    let neg = leaf(Op::Param(g.neg_a));
    let wide = Op::Reshape(d2(1, g.n_v_heads));
    lemma_same_un(m, wide, neg, i, neg, j);
    lemma_same_bin(
        m,
        Op::BroadcastMul,
        (softplus_of(sa), un(wide, neg)),
        i,
        (softplus_of(sb), un(wide, neg)),
        j,
    );
    lemma_same_un(
        m,
        Op::Exp,
        bin(Op::BroadcastMul, softplus_of(sa), un(wide, neg)),
        i,
        bin(Op::BroadcastMul, softplus_of(sb), un(wide, neg)),
        j,
    );
}

/// Position `i + k` of `a` holds what position `j + k` of `b` holds.
pub open spec fn aligned<V>(m: Meaning<V>, a: Val, i: int, b: Val, j: int, k: int) -> bool {
    m.same(a, i + k, b, j + k)
}

pub(crate) proof fn lemma_same_tap<V>(
    m: Meaning<V>,
    w: Val,
    k: usize,
    a: (Val, usize),
    i: int,
    b: (Val, usize),
    j: int,
)
    requires
        w.term is Leaf && w.term->Leaf_0 is Param,
        sideways(a.0.term) && sideways(b.0.term),
        aligned(m, a.0, i, b.0, j, k as int),
    ensures
        m.same(tap(a.0, w, k, a.1), i, tap(b.0, w, k, b.1), j),
        sideways(tap(a.0, w, k, a.1).term),
{
    let (pa, pb) = (
        Op::Narrow { dim: 1, start: k, len: a.1 },
        Op::Narrow { dim: 1, start: k, len: b.1 },
    );
    let one = Op::Narrow { dim: 1, start: k, len: 1 };
    lemma_sliced(m, k, a.1, a.0, i);
    lemma_sliced(m, k, b.1, b.0, j);
    lemma_same_part(m, one, w, i, w, j);
    lemma_same_bin(
        m,
        Op::BroadcastMul,
        (un(pa, a.0), un(one, w)),
        i,
        (un(pb, b.0), un(one, w)),
        j,
    );
    lemma_un_extent(m, pa, a.0);
    lemma_bin_extent(m, Op::BroadcastMul, un(pa, a.0), un(one, w));
}

/// Taps over the same inputs add up to the same.
pub(crate) proof fn lemma_same_taps<V>(
    m: Meaning<V>,
    w: Val,
    first: (Val, Val),
    a: (Val, usize),
    i: int,
    b: (Val, usize),
    j: int,
    from: int,
    to: int,
)
    requires
        w.term is Leaf && w.term->Leaf_0 is Param,
        sideways(a.0.term) && sideways(b.0.term),
        0 <= from <= to <= usize::MAX,
        sideways(first.0.term),
        m.same(first.0, i, first.1, j),
        forall|k: int| from <= k < to ==> #[trigger] aligned(m, a.0, i, b.0, j, k),
    ensures
        m.same(
            taps(first.0, a.0, w, a.1, from, to),
            i,
            taps(first.1, b.0, w, b.1, from, to),
            j,
        ),
        sideways(taps(first.0, a.0, w, a.1, from, to).term),
    decreases to - from,
{
    if from < to {
        lemma_same_taps(m, w, first, a, i, b, j, from, to - 1);
        let k = (to - 1) as usize;
        assert(aligned(m, a.0, i, b.0, j, to - 1));
        lemma_same_tap(m, w, k, a, i, b, j);
        lemma_same_bin(
            m,
            Op::Add,
            (taps(first.0, a.0, w, a.1, from, to - 1), tap(a.0, w, k, a.1)),
            i,
            (taps(first.1, b.0, w, b.1, from, to - 1), tap(b.0, w, k, b.1)),
            j,
        );
        lemma_bin_extent(
            m,
            Op::Add,
            taps(first.0, a.0, w, a.1, from, to - 1),
            tap(a.0, w, k, a.1),
        );
    }
}

pub open spec fn as_scan(s: ScanIn) -> Scan {
    Scan { q: s.q, k: s.k, v: s.v, beta: s.beta, decay: s.decay }
}

/// A slice of the channels, as heads.
proof fn lemma_same_heads<V>(
    m: Meaning<V>,
    start: usize,
    n: usize,
    heads: usize,
    d: usize,
    a: (Val, usize),
    i: int,
    b: (Val, usize),
    j: int,
)
    requires
        !sideways(a.0.term) && !sideways(b.0.term),
        m.same(a.0, i, b.0, j),
    ensures
        ({
            let part = |x: Val, len: usize|
                un(Op::Reshape(d3(len, heads, d)), un(Op::Narrow { dim: 1, start, len: n }, x));
            &&& m.same(part(a.0, a.1), i, part(b.0, b.1), j)
            &&& part(a.0, a.1).shape.rank == 3
            &&& part(b.0, b.1).shape.rank == 3
        }),
{
    let op = Op::Narrow { dim: 1, start, len: n };
    lemma_same_part(m, op, a.0, i, b.0, j);
    lemma_laid_out(m, Op::Reshape(d3(a.1, heads, d)), un(op, a.0), i);
    lemma_laid_out(m, Op::Reshape(d3(b.1, heads, d)), un(op, b.0), j);
    reveal(un);
}

/// The scan sees the same where input and convolution hold the same.
pub(crate) proof fn lemma_same_scan_in<V>(
    m: Meaning<V>,
    g: GatedDeltaNet,
    x: (Val, Val),
    conv: (Val, Val),
    len: (usize, usize),
    i: int,
    j: int,
)
    requires
        m.same(x.0, i, x.1, j),
        m.same(conv.0, i, conv.1, j),
        sideways(conv.0.term) && sideways(conv.1.term),
    ensures
        as_scan(g.scan_in(x.0, conv.0, len.0)).same(
            m,
            i,
            as_scan(g.scan_in(x.1, conv.1, len.1)),
            j,
        ),
{
    lemma_same_rates(m, g, x.0, i, x.1, j);
    lemma_same_silu(m, conv.0, i, conv.1, j);
    lemma_same_silu(m, conv.1, j, conv.0, i);
    let turn = Op::Transpose(0, 1);
    let (a, b) = (un(turn, silu_of(conv.0)), un(turn, silu_of(conv.1)));
    lemma_laid_out(m, turn, silu_of(conv.0), i);
    lemma_laid_out(m, turn, silu_of(conv.1), j);
    assert(!sideways(a.term) && !sideways(b.term)) by {
        reveal(un);
    }
    let (kd, vd) = (g.key_dim(), g.value_dim());
    let part = |x: Val, len: usize, start: usize, n: usize, heads: usize, d: usize|
        un(Op::Reshape(d3(len, heads, d)), un(Op::Narrow { dim: 1, start, len: n }, x));
    lemma_same_heads(m, 0, kd, g.n_k_heads, g.d_k, (a, len.0), i, (b, len.1), j);
    lemma_same_heads(m, kd, kd, g.n_k_heads, g.d_k, (a, len.0), i, (b, len.1), j);
    lemma_same_heads(
        m,
        sat_product(2, kd),
        vd,
        g.n_v_heads,
        g.d_v,
        (a, len.0),
        i,
        (b, len.1),
        j,
    );
    let (qa, qb) = (
        part(a, len.0, 0, kd, g.n_k_heads, g.d_k),
        part(b, len.1, 0, kd, g.n_k_heads, g.d_k),
    );
    let (ka, kb) = (
        part(a, len.0, kd, kd, g.n_k_heads, g.d_k),
        part(b, len.1, kd, kd, g.n_k_heads, g.d_k),
    );
    lemma_same_l2(m, qa, i, qb, j);
    lemma_same_l2(m, ka, i, kb, j);
    lemma_same_un(
        m,
        Op::MulScalar(Scalar::PowNegHalf(g.d_k)),
        l2_normed(qa),
        i,
        l2_normed(qb),
        j,
    );
}

/// The output of a position depends on what input and scan hold there.
pub(crate) proof fn lemma_same_output<V>(
    m: Meaning<V>,
    g: GatedDeltaNet,
    x: (Val, Val),
    o: (Val, Val),
    len: (usize, usize),
    dtype: DType,
    i: int,
    j: int,
)
    requires
        m.same(x.0, i, x.1, j),
        m.same(o.0, i, o.1, j),
        o.0.shape.rank == o.1.shape.rank,
    ensures
        m.same(g.output(x.0, o.0, len.0, dtype), i, g.output(x.1, o.1, len.1, dtype), j),
{
    lemma_same_rates(m, g, x.0, i, x.1, j);
    let (za, zb) = (
        GatedDeltaNet::wide(g.in_proj_z, x.0),
        GatedDeltaNet::wide(g.in_proj_z, x.1),
    );
    let (ra, rb) = (
        Op::Reshape(d3(len.0, g.n_v_heads, g.d_v)),
        Op::Reshape(d3(len.1, g.n_v_heads, g.d_v)),
    );
    lemma_laid_out(m, ra, za, i);
    lemma_laid_out(m, rb, zb, j);
    lemma_same_silu(m, un(ra, za), i, un(rb, zb), j);
    let w0 = leaf(Op::Param(g.norm_weight));
    let to_w = Op::Reshape(d3(1, 1, g.d_v));
    lemma_same_un(m, to_w, w0, i, w0, j);
    let w = un(to_w, w0);
    let eps = Scalar::F64(g.eps);
    lemma_same_rms(m, eps, o.0, i, o.1, j);
    let (na, nb) = (rms_normalized(o.0, eps), rms_normalized(o.1, eps));
    lemma_same_bin(m, Op::BroadcastMul, (na, w), i, (nb, w), j);
    let (wa, wb) = (bin(Op::BroadcastMul, na, w), bin(Op::BroadcastMul, nb, w));
    lemma_same_bin(m, Op::Mul, (wa, silu_of(un(ra, za))), i, (wb, silu_of(un(rb, zb))), j);
    let (ga, gb) = (bin(Op::Mul, wa, silu_of(un(ra, za))), bin(Op::Mul, wb, silu_of(un(rb, zb))));
    let (fa, fb) = (
        Op::Reshape(d3(1, len.0, g.value_dim())),
        Op::Reshape(d3(1, len.1, g.value_dim())),
    );
    lemma_laid_out(m, fa, ga, i);
    lemma_laid_out(m, fb, gb, j);
    lemma_same_un(m, Op::ToDType(dtype), un(fa, ga), i, un(fb, gb), j);
    lemma_same_proj(
        m,
        g.out_proj,
        un(Op::ToDType(dtype), un(fa, ga)),
        i,
        un(Op::ToDType(dtype), un(fb, gb)),
        j,
    );
}

/// What stands in front of the inputs of the convolution.
pub open spec fn before(g: GatedDeltaNet, state: GdnState, bufs: Bufs) -> Val {
    let kept = (g.conv_kernel - 1) as usize;
    match state.conv.current() {
        Some(b) => un(Op::Narrow { dim: 1, start: 1, len: kept }, held(bufs, b)),
        None => leaf(Op::Zeros { shape: d2(g.conv_dim(), kept), dtype: DType::F32 }),
    }
}

/// The inputs of the convolution follow what stands in front of them.
pub(crate) proof fn lemma_padded<V>(
    m: Meaning<V>,
    g: GatedDeltaNet,
    x_flat: Val,
    state: GdnState,
    bufs: Bufs,
    i: int,
)
    requires
        g.wf(),
        !sideways(x_flat.term),
    ensures
        ({
            let padded = g.padded(x_flat, state, bufs);
            let kept = g.conv_kernel - 1;
            &&& sideways(padded.term)
            &&& m.at(padded.term, i) == (if i < kept {
                m.at(before(g, state, bufs).term, i)
            } else {
                m.at(GatedDeltaNet::wide(g.in_proj_qkv, x_flat).term, i - kept)
            })
        }),
{
    let prev = before(g, state, bufs);
    let wide = GatedDeltaNet::wide(g.in_proj_qkv, x_flat);
    let kept = (g.conv_kernel - 1) as usize;
    if let Some(b) = state.conv.current() {
        lemma_un_extent(m, Op::Narrow { dim: 1, start: 1, len: kept }, held(bufs, b));
    }
    lemma_same_proj(m, g.in_proj_qkv, x_flat, 0, x_flat, 0);
    lemma_un_extent(m, Op::ToDType(DType::F32), g.in_proj_qkv.apply(x_flat));
    let turn = Op::Transpose(0, 1);
    lemma_un_extent(m, turn, wide);
    lemma_bin_extent(m, Op::Cat(1), prev, un(turn, wide));
    lemma_joined(m, Op::Cat(1), prev, un(turn, wide), i);
    lemma_laid_out(m, turn, wide, i - kept);
}

/// The convolution over `len` positions.
pub open spec fn conv_of(g: GatedDeltaNet, padded: Val, len: usize) -> Val {
    let w = leaf(Op::Param(g.conv1d_weight));
    taps(tap(padded, w, 0, len), padded, w, len, 1, g.conv_kernel as int)
}

/// What the scan of a pass over `x` sees.
pub open spec fn scan_of(g: GatedDeltaNet, x: Val, padded: Val) -> Scan {
    as_scan(g.scan_in(GatedDeltaNet::rows(x), conv_of(g, padded, x.shape.d1), x.shape.d1))
}

/// The scan sees the same at positions where the input and a window of inputs
/// before it are the same.
proof fn lemma_same_position<V>(
    m: Meaning<V>,
    g: GatedDeltaNet,
    x: (Val, Val),
    padded: (Val, Val),
    i: int,
    j: int,
)
    requires
        g.wf(),
        m.same(x.0, i, x.1, j),
        sideways(padded.0.term) && sideways(padded.1.term),
        forall|k: int|
            0 <= k < g.conv_kernel ==> #[trigger] aligned(m, padded.0, i, padded.1, j, k),
    ensures
        scan_of(g, x.0, padded.0).same(m, i, scan_of(g, x.1, padded.1), j),
        m.same(GatedDeltaNet::rows(x.0), i, GatedDeltaNet::rows(x.1), j),
{
    let w = leaf(Op::Param(g.conv1d_weight));
    let (la, lb) = (x.0.shape.d1, x.1.shape.d1);
    assert(aligned(m, padded.0, i, padded.1, j, 0));
    lemma_same_tap(m, w, 0, (padded.0, la), i, (padded.1, lb), j);
    lemma_same_tap(m, w, 0, (padded.1, lb), j, (padded.0, la), i);
    let first = (tap(padded.0, w, 0, la), tap(padded.1, w, 0, lb));
    let n = g.conv_kernel as int;
    lemma_same_taps(m, w, first, (padded.0, la), i, (padded.1, lb), j, 1, n);
    assert forall|k: int| 1 <= k < n implies #[trigger] aligned(
        m,
        padded.1,
        j,
        padded.0,
        i,
        k,
    ) by {
        assert(aligned(m, padded.0, i, padded.1, j, k));
    }
    lemma_same_taps(m, w, (first.1, first.0), (padded.1, lb), j, (padded.0, la), i, 1, n);
    let flat = |v: Val| Op::Reshape(d2(v.shape.d1, sat_product(v.shape.d0, v.shape.d2)));
    lemma_laid_out(m, flat(x.0), x.0, i);
    lemma_laid_out(m, flat(x.1), x.1, j);
    lemma_same_scan_in(
        m,
        g,
        (GatedDeltaNet::rows(x.0), GatedDeltaNet::rows(x.1)),
        (conv_of(g, padded.0, la), conv_of(g, padded.1, lb)),
        (la, lb),
        i,
        j,
    );
}

pub(crate) proof fn lemma_taps_dtype(first: Val, padded: Val, w: Val, len: usize, from: int, to: int)
    ensures
        taps(first, padded, w, len, from, to).dtype == first.dtype,
    decreases to - from,
{
    if from < to {
        lemma_taps_dtype(first, padded, w, len, from, to - 1);
        reveal(bin);
    }
}

/// Whether a scan is refused depends on the device and the width of the keys.
pub(crate) proof fn lemma_scan_error(g: GatedDeltaNet, device: Device, x_flat: Val, conv: Val, len: usize, s: Buf)
    requires
        conv.dtype == DType::F32,
        s.dtype == DType::F32,
    ensures
        ({
            let i = g.scan_in(x_flat, conv, len);
            let bytes = scan_shared_bytes(g.d_k as int);
            scan_error(device, i.q, i.k, i.v, i.beta, i.decay, s) == (if device != Device::Cuda {
                Some(Error::CudaOnly)
            } else if bytes > 48 * 1024 {
                Some(Error::SharedMemory { bytes: bytes as usize })
            } else {
                None
            })
        }),
{
    reveal(un);
    reveal(bin);
}

/// The pass over a chunk in its parts.
pub open spec fn passed(
    g: GatedDeltaNet,
    x: Val,
    state: GdnState,
    buffers: Seq<Buf>,
    bufs: Bufs,
) -> GdnOut {
    let padded = g.padded(GatedDeltaNet::rows(x), state, bufs);
    let len = x.shape.d1;
    let window = un(
        Op::Narrow { dim: 1, start: (len - 1) as usize, len: g.conv_kernel },
        padded,
    );
    let cbuf = state.conv.target(buffers, g.conv_shape());
    let buffers1 = state.conv.buffers_after(buffers, g.conv_shape());
    let bufs1 = state.conv.bufs_after(buffers, bufs, g.conv_shape()).insert(
        cbuf.id as int,
        window.term,
    );
    let sbuf = state.s.target(buffers1, g.s_shape());
    let bufs2 = state.s.bufs_after(buffers1, bufs1, g.s_shape());
    let scan = scan_of(g, x, padded);
    let s = bufs2[sbuf.id as int];
    GdnOut {
        out: g.output(GatedDeltaNet::rows(x), scan.out(s), len, x.dtype),
        bufs: bufs2.insert(sbuf.id as int, scan.state(s)),
        buffers: state.s.buffers_after(buffers1, g.s_shape()),
        state: GdnState {
            conv: state.conv.claimed(buffers, g.conv_shape()),
            s: state.s.claimed(buffers1, g.s_shape()),
        },
    }
}

/// A pass over a chunk is refused only for the device or the width of the keys.
proof fn lemma_passed(
    g: GatedDeltaNet,
    device: Device,
    x: Val,
    state: GdnState,
    buffers: Seq<Buf>,
    bufs: Bufs,
)
    requires
        g.wf(),
        g.state_ok(state),
        x.shape.rank == 3,
        x.shape.d1 > 0,
    ensures
        ({
            let fine = device == Device::Cuda && scan_shared_bytes(g.d_k as int) <= 48 * 1024;
            let want = g.pass(device, x, state, buffers, bufs);
            &&& want is Ok <==> fine
            &&& fine ==> want == Ok::<GdnOut, GdnStop>(passed(g, x, state, buffers, bufs))
        }),
{
    let x_flat = GatedDeltaNet::rows(x);
    let padded = g.padded(x_flat, state, bufs);
    let w = leaf(Op::Param(g.conv1d_weight));
    let len = x.shape.d1;
    assert(padded.dtype == DType::F32 && tap(padded, w, 0, len).dtype == DType::F32) by {
        reveal(un);
        reveal(bin);
    }
    lemma_taps_dtype(tap(padded, w, 0, len), padded, w, len, 1, g.conv_kernel as int);
    let buffers1 = state.conv.buffers_after(buffers, g.conv_shape());
    let sbuf = state.s.target(buffers1, g.s_shape());
    lemma_scan_error(g, device, x_flat, conv_of(g, padded, len), len, sbuf);
}

/// `x` is `a` followed by `b`: every value has as many positions as its extents
/// say.
pub open spec fn follow<V>(m: Meaning<V>, x: Val, a: Val, b: Val) -> bool {
    &&& x.shape.rank == 3 && a.shape.rank == 3 && b.shape.rank == 3
    &&& a.shape.d1 > 0 && b.shape.d1 > 0
    &&& x.shape.d1 == a.shape.d1 + b.shape.d1
    &&& a.dtype == x.dtype && b.dtype == x.dtype
    &&& m.len(x.term) == x.shape.d1
    &&& m.len(a.term) == a.shape.d1
    &&& m.len(b.term) == b.shape.d1
    &&& forall|i: int| 0 <= i < a.shape.d1 ==> m.at(x.term, i) == #[trigger] m.at(a.term, i)
    &&& forall|i: int|
        0 <= i < b.shape.d1 ==> m.at(x.term, a.shape.d1 + i) == #[trigger] m.at(b.term, i)
}

/// A chunk in two pieces, the second from the state that the first leaves, gives
/// the outputs of one pass over the whole chunk, and leaves the same window and
/// the same state in the same buffers. The one is refused where the other is.
pub proof fn law_chunk_splits<V>(
    m: Meaning<V>,
    g: GatedDeltaNet,
    device: Device,
    x: Val,
    a: Val,
    b: Val,
    state: GdnState,
    buffers: Seq<Buf>,
    bufs: Bufs,
)
    requires
        g.wf(),
        g.state_ok(state),
        follow(m, x, a, b),
        state.conv.target(buffers, g.conv_shape()).id != state.s.target(
            state.conv.buffers_after(buffers, g.conv_shape()),
            g.s_shape(),
        ).id,
    ensures
        g.pass(device, x, state, buffers, bufs) is Ok <==> g.pass(device, a, state, buffers, bufs)
            is Ok,
        g.pass(device, x, state, buffers, bufs) matches Ok(whole) ==> {
            let first = g.pass(device, a, state, buffers, bufs)->Ok_0;
            let then = g.pass(device, b, first.state, first.buffers, first.bufs);
            &&& then matches Ok(second) && {
                let (c, s) = (second.state.conv.current()->0.id, second.state.s.current()->0.id);
                &&& second.state == whole.state
                &&& second.buffers == whole.buffers
                &&& forall|i: int|
                    0 <= i < a.shape.d1 ==> m.at(whole.out.term, i) == #[trigger] m.at(
                        first.out.term,
                        i,
                    )
                &&& forall|i: int|
                    0 <= i < b.shape.d1 ==> m.at(whole.out.term, a.shape.d1 + i)
                        == #[trigger] m.at(second.out.term, i)
                &&& forall|i: int|
                    0 <= i < g.conv_kernel ==> #[trigger] m.at(whole.bufs[c as int], i) == m.at(
                        second.bufs[c as int],
                        i,
                    )
                &&& m.at(whole.bufs[s as int], 0) == m.at(second.bufs[s as int], 0)
            }
        },
{
    lemma_passed(g, device, x, state, buffers, bufs);
    lemma_passed(g, device, a, state, buffers, bufs);
    if g.pass(device, x, state, buffers, bufs) is Ok {
        let whole = passed(g, x, state, buffers, bufs);
        let first = passed(g, a, state, buffers, bufs);
        lemma_passed(g, device, b, first.state, first.buffers, first.bufs);
        let second = passed(g, b, first.state, first.buffers, first.bufs);
        lemma_pieces(m, g, x, a, b, state, buffers, bufs);
    }
}

proof fn lemma_pieces<V>(
    m: Meaning<V>,
    g: GatedDeltaNet,
    x: Val,
    a: Val,
    b: Val,
    state: GdnState,
    buffers: Seq<Buf>,
    bufs: Bufs,
)
    requires
        g.wf(),
        g.state_ok(state),
        follow(m, x, a, b),
        state.conv.target(buffers, g.conv_shape()).id != state.s.target(
            state.conv.buffers_after(buffers, g.conv_shape()),
            g.s_shape(),
        ).id,
    ensures
        ({
            let whole = passed(g, x, state, buffers, bufs);
            let first = passed(g, a, state, buffers, bufs);
            let second = passed(g, b, first.state, first.buffers, first.bufs);
            let (c, s) = (second.state.conv.current()->0.id, second.state.s.current()->0.id);
            &&& second.state == whole.state
            &&& second.buffers == whole.buffers
            &&& forall|i: int|
                0 <= i < a.shape.d1 ==> m.at(whole.out.term, i) == #[trigger] m.at(
                    first.out.term,
                    i,
                )
            &&& forall|i: int|
                0 <= i < b.shape.d1 ==> m.at(whole.out.term, a.shape.d1 + i) == #[trigger] m.at(
                    second.out.term,
                    i,
                )
            &&& forall|i: int|
                0 <= i < g.conv_kernel ==> #[trigger] m.at(whole.bufs[c as int], i) == m.at(
                    second.bufs[c as int],
                    i,
                )
            &&& m.at(whole.bufs[s as int], 0) == m.at(second.bufs[s as int], 0)
        }),
{
    let whole = passed(g, x, state, buffers, bufs);
    let first = passed(g, a, state, buffers, bufs);
    let second = passed(g, b, first.state, first.buffers, first.bufs);
    let (t, u) = (a.shape.d1 as int, b.shape.d1 as int);
    let kept = g.conv_kernel - 1;
    let (xf, af, bf) = (
        GatedDeltaNet::rows(x),
        GatedDeltaNet::rows(a),
        GatedDeltaNet::rows(b),
    );
    let flat = |v: Val| Op::Reshape(d2(v.shape.d1, sat_product(v.shape.d0, v.shape.d2)));
    lemma_un_extent(m, flat(x), x);
    lemma_un_extent(m, flat(a), a);
    lemma_un_extent(m, flat(b), b);
    let px = g.padded(xf, state, bufs);
    let pa = g.padded(af, state, bufs);
    let pb = g.padded(bf, first.state, first.bufs);
    let cbuf = state.conv.target(buffers, g.conv_shape());
    let window = un(Op::Narrow { dim: 1, start: (t - 1) as usize, len: g.conv_kernel }, pa);
    assert(first.state.conv.current() == Some(cbuf));
    assert(first.bufs[cbuf.id as int] == window.term);
    // what the inputs of the convolution are
    assert forall|i: int| 0 <= i < t implies m.at(
        GatedDeltaNet::wide(g.in_proj_qkv, xf).term,
        i,
    ) == #[trigger] m.at(GatedDeltaNet::wide(g.in_proj_qkv, af).term, i) by {
        assert(m.at(x.term, i) == m.at(a.term, i));
        lemma_laid_out(m, flat(x), x, i);
        lemma_laid_out(m, flat(a), a, i);
        lemma_same_rates(m, g, xf, i, af, i);
    }
    assert forall|i: int| 0 <= i < u implies m.at(
        GatedDeltaNet::wide(g.in_proj_qkv, xf).term,
        t + i,
    ) == #[trigger] m.at(GatedDeltaNet::wide(g.in_proj_qkv, bf).term, i) by {
        assert(m.at(x.term, t + i) == m.at(b.term, i));
        lemma_laid_out(m, flat(x), x, t + i);
        lemma_laid_out(m, flat(b), b, i);
        lemma_same_rates(m, g, xf, t + i, bf, i);
    }
    lemma_padded(m, g, af, state, bufs, 0);
    lemma_padded(m, g, xf, state, bufs, 0);
    lemma_padded(m, g, bf, first.state, first.bufs, 0);
    assert forall|i: int| 0 <= i < kept + t implies m.at(px.term, i) == #[trigger] m.at(
        pa.term,
        i,
    ) by {
        lemma_padded(m, g, xf, state, bufs, i);
        lemma_padded(m, g, af, state, bufs, i);
        if i >= kept {
            assert(m.at(GatedDeltaNet::wide(g.in_proj_qkv, xf).term, i - kept) == m.at(
                GatedDeltaNet::wide(g.in_proj_qkv, af).term,
                i - kept,
            ));
        }
    }
    assert(sideways(window.term)) by {
        lemma_un_extent(m, Op::Narrow { dim: 1, start: (t - 1) as usize, len: g.conv_kernel }, pa);
    }
    assert forall|i: int| 0 <= i < kept + u implies m.at(px.term, t + i) == #[trigger] m.at(
        pb.term,
        i,
    ) by {
        lemma_padded(m, g, xf, state, bufs, t + i);
        lemma_padded(m, g, bf, first.state, first.bufs, i);
        if i < kept {
            let last = held(first.bufs, cbuf);
            lemma_sliced(m, 1, kept as usize, last, i);
            lemma_sliced(m, (t - 1) as usize, g.conv_kernel, pa, 1 + i);
            assert(m.at(px.term, t + i) == m.at(pa.term, t + i));
        } else {
            assert(m.at(GatedDeltaNet::wide(g.in_proj_qkv, xf).term, t + (i - kept)) == m.at(
                GatedDeltaNet::wide(g.in_proj_qkv, bf).term,
                i - kept,
            ));
        }
    }
    // the scans
    let (sx, sa, sb) = (scan_of(g, x, px), scan_of(g, a, pa), scan_of(g, b, pb));
    lemma_same_rates(m, g, xf, 0, xf, 0);
    lemma_same_rates(m, g, af, 0, af, 0);
    lemma_same_rates(m, g, bf, 0, bf, 0);
    assert forall|i: int| 0 <= i < t implies #[trigger] sx.same(m, i, sa, i) && m.same(
        xf,
        i,
        af,
        i,
    ) by {
        assert(m.at(x.term, i) == m.at(a.term, i));
        assert forall|k: int| 0 <= k < g.conv_kernel implies #[trigger] aligned(
            m,
            px,
            i,
            pa,
            i,
            k,
        ) by {
            assert(m.at(px.term, i + k) == m.at(pa.term, i + k));
        }
        lemma_same_position(m, g, (x, a), (px, pa), i, i);
    }
    assert forall|i: int| 0 <= i < u implies #[trigger] sx.goes_on(m, t, sb, i) && m.same(
        xf,
        t + i,
        bf,
        i,
    ) by {
        assert(m.at(x.term, t + i) == m.at(b.term, i));
        assert forall|k: int| 0 <= k < g.conv_kernel implies #[trigger] aligned(
            m,
            px,
            t + i,
            pb,
            i,
            k,
        ) by {
            assert(m.at(px.term, t + (i + k)) == m.at(pb.term, i + k));
        }
        lemma_same_position(m, g, (x, b), (px, pb), t + i, i);
    }
    let buffers1 = state.conv.buffers_after(buffers, g.conv_shape());
    let sbuf = state.s.target(buffers1, g.s_shape());
    let bufs1 = state.conv.bufs_after(buffers, bufs, g.conv_shape());
    let s = state.s.bufs_after(
        buffers1,
        bufs1.insert(cbuf.id as int, window.term),
        g.s_shape(),
    )[sbuf.id as int];
    law_scan_splits(m, sx, sa, sb, s);
    assert(first.bufs[sbuf.id as int] == sa.state(s));
    assert(whole.bufs[sbuf.id as int] == sx.state(s));
    assert(second.bufs[sbuf.id as int] == sb.state(sa.state(s)));
    // the outputs
    assert forall|i: int| 0 <= i < t implies m.at(whole.out.term, i) == #[trigger] m.at(
        first.out.term,
        i,
    ) by {
        assert(sx.same(m, i, sa, i));
        assert(m.same(sx.out(s), i, sa.out(s), i));
        lemma_same_output(
            m,
            g,
            (xf, af),
            (sx.out(s), sa.out(s)),
            (x.shape.d1, a.shape.d1),
            x.dtype,
            i,
            i,
        );
    }
    assert forall|i: int| 0 <= i < u implies m.at(whole.out.term, t + i) == #[trigger] m.at(
        second.out.term,
        i,
    ) by {
        assert(sx.goes_on(m, t, sb, i));
        let r = sb.out(sa.state(s));
        assert(m.at(sx.out(s).term, t + i) == m.at(r.term, i));
        lemma_same_output(
            m,
            g,
            (xf, bf),
            (sx.out(s), r),
            (x.shape.d1, b.shape.d1),
            x.dtype,
            t + i,
            i,
        );
    }
    // the windows
    let wx = un(Op::Narrow { dim: 1, start: (t + u - 1) as usize, len: g.conv_kernel }, px);
    let wb = un(Op::Narrow { dim: 1, start: (u - 1) as usize, len: g.conv_kernel }, pb);
    assert(whole.bufs[cbuf.id as int] == wx.term);
    assert(second.bufs[cbuf.id as int] == wb.term);
    assert forall|i: int| 0 <= i < g.conv_kernel implies #[trigger] m.at(
        whole.bufs[cbuf.id as int],
        i,
    ) == m.at(second.bufs[cbuf.id as int], i) by {
        lemma_sliced(m, (t + u - 1) as usize, g.conv_kernel, px, i);
        lemma_sliced(m, (u - 1) as usize, g.conv_kernel, pb, i);
        assert(m.at(px.term, t + (u - 1 + i)) == m.at(pb.term, u - 1 + i));
    }
}

/// Adding the last tap first makes no difference.
proof fn lemma_last_tap_first<V>(m: Meaning<V>, padded: Val, w: Val, last: usize, n: int)
    requires
        m.sums(),
        1 <= n <= usize::MAX,
    ensures
        m.at(taps(tap(padded, w, last, 1), padded, w, 1, 0, n).term, 0) == (m.bin)(
            Op::Add,
            m.at(tap(padded, w, last, 1).term, 0),
            m.at(taps(tap(padded, w, 0, 1), padded, w, 1, 1, n).term, 0),
        ),
    decreases n,
{
    let first = tap(padded, w, last, 1);
    let zero = tap(padded, w, 0, 1);
    reveal(bin);
    if n == 1 {
        assert(taps(first, padded, w, 1, 0, 0) == first);
        assert(taps(zero, padded, w, 1, 1, 1) == zero);
        assert(taps(first, padded, w, 1, 0, 1) == bin(Op::Add, first, zero));
    } else {
        lemma_last_tap_first(m, padded, w, last, n - 1);
        let next = tap(padded, w, (n - 1) as usize, 1);
        let (a, b) = (
            taps(first, padded, w, 1, 0, n - 1),
            taps(zero, padded, w, 1, 1, n - 1),
        );
        assert(taps(first, padded, w, 1, 0, n) == bin(Op::Add, a, next));
        assert(taps(zero, padded, w, 1, 1, n) == bin(Op::Add, b, next));
        let (f, e, t) = (m.at(first.term, 0), m.at(b.term, 0), m.at(next.term, 0));
        assert((m.bin)(Op::Add, (m.bin)(Op::Add, f, e), t) == (m.bin)(
            Op::Add,
            f,
            (m.bin)(Op::Add, e, t),
        ));
    }
}

/// The convolution of a static step, whose last tap comes first.
pub open spec fn step_conv(g: GatedDeltaNet, padded: Val) -> Val {
    let w = leaf(Op::Param(g.conv1d_weight));
    let last = (g.conv_kernel - 1) as usize;
    taps(tap(padded, w, last, 1), padded, w, 1, 0, last as int)
}

/// The convolution of a static step is that of a chunk of one.
proof fn lemma_step_conv<V>(m: Meaning<V>, g: GatedDeltaNet, padded: Val)
    requires
        m.sums(),
        g.wf(),
        sideways(padded.term),
    ensures
        m.same(step_conv(g, padded), 0, conv_of(g, padded, 1), 0),
        sideways(step_conv(g, padded).term),
        sideways(conv_of(g, padded, 1).term),
{
    let w = leaf(Op::Param(g.conv1d_weight));
    let n = g.conv_kernel as int;
    let last = (n - 1) as usize;
    let (first, zero) = (tap(padded, w, last, 1), tap(padded, w, 0, 1));
    lemma_same_tap(m, w, last, (padded, 1), 0, (padded, 1), 0);
    lemma_same_tap(m, w, 0, (padded, 1), 0, (padded, 1), 0);
    lemma_same_taps(m, w, (first, first), (padded, 1), 0, (padded, 1), 0, 0, last as int);
    lemma_same_taps(m, w, (zero, zero), (padded, 1), 0, (padded, 1), 0, 1, n);
    if n > 1 {
        lemma_last_tap_first(m, padded, w, last, n - 1);
        let e = taps(zero, padded, w, 1, 1, n - 1);
        assert(taps(zero, padded, w, 1, 1, n) == bin(Op::Add, e, first));
        reveal(bin);
        assert((m.bin)(Op::Add, m.at(first.term, 0), m.at(e.term, 0)) == (m.bin)(
            Op::Add,
            m.at(e.term, 0),
            m.at(first.term, 0),
        ));
    } else {
        assert(taps(first, padded, w, 1, 0, 0) == first);
        assert(taps(zero, padded, w, 1, 1, 1) == zero);
    }
}

/// What the convolution window of an eager pass counts as: zeros where there is
/// none.
pub open spec fn window_of(g: GatedDeltaNet, state: GdnState, bufs: Bufs) -> Term {
    match state.conv.current() {
        Some(b) => bufs[b.id as int],
        None => Term::Leaf(Op::Zeros { shape: g.conv_shape(), dtype: DType::F32 }),
    }
}

/// What the recurrent state of an eager pass counts as: zeros where there is
/// none.
pub open spec fn state_of(g: GatedDeltaNet, state: GdnState, bufs: Bufs) -> Term {
    match state.s.current() {
        Some(b) => bufs[b.id as int],
        None => Term::Leaf(Op::Zeros { shape: g.s_shape(), dtype: DType::F32 }),
    }
}

/// The convolution of a static step sees the inputs that a chunk of one sees from
/// an equal window.
proof fn lemma_same_windows<V>(
    m: Meaning<V>,
    g: GatedDeltaNet,
    x: (Val, Val),
    live: GdnState,
    at: Bufs,
    eager: GdnState,
    by: Bufs,
)
    requires
        g.wf(),
        !sideways(x.0.term) && !sideways(x.1.term),
        m.same(x.0, 0, x.1, 0),
        live.conv.current() is Some,
        sideways(at[live.conv.current()->0.id as int]),
        sideways(window_of(g, eager, by)),
        forall|i: int|
            0 <= i < g.conv_kernel ==> #[trigger] m.at(at[live.conv.current()->0.id as int], i)
                == m.at(window_of(g, eager, by), i),
    ensures
        sideways(g.padded(x.0, live, at).term),
        sideways(g.padded(x.1, eager, by).term),
        forall|k: int|
            0 <= k < g.conv_kernel ==> #[trigger] aligned(
                m,
                g.padded(x.0, live, at),
                0,
                g.padded(x.1, eager, by),
                0,
                k,
            ),
{
    let kept = g.conv_kernel - 1;
    let cbuf = live.conv.current()->0;
    lemma_same_rates(m, g, x.0, 0, x.1, 0);
    lemma_padded(m, g, x.0, live, at, 0);
    lemma_padded(m, g, x.1, eager, by, 0);
    assert forall|k: int| 0 <= k < g.conv_kernel implies #[trigger] aligned(
        m,
        g.padded(x.0, live, at),
        0,
        g.padded(x.1, eager, by),
        0,
        k,
    ) by {
        lemma_padded(m, g, x.0, live, at, k);
        lemma_padded(m, g, x.1, eager, by, k);
        if k < kept {
            let c = at[cbuf.id as int];
            assert(m.at(c, 1 + k) == m.at(window_of(g, eager, by), 1 + k));
            lemma_sliced(m, 1, kept as usize, held(at, cbuf), k);
            if let Some(b) = eager.conv.current() {
                lemma_sliced(m, 1, kept as usize, held(by, b), k);
            }
        }
    }
}

/// The scan of a static step sees what the scan of a chunk of one sees from equal
/// inputs of the convolution.
proof fn lemma_same_step_scan<V>(m: Meaning<V>, g: GatedDeltaNet, x: (Val, Val), p: (Val, Val))
    requires
        m.sums(),
        g.wf(),
        m.same(x.0, 0, x.1, 0),
        sideways(p.0.term) && sideways(p.1.term),
        forall|k: int|
            0 <= k < g.conv_kernel ==> #[trigger] aligned(m, p.0, 0, p.1, 0, k),
    ensures
        as_scan(g.scan_in(x.0, step_conv(g, p.0), 1)).same(
            m,
            0,
            as_scan(g.scan_in(x.1, conv_of(g, p.1, 1), 1)),
            0,
        ),
{
    let w = leaf(Op::Param(g.conv1d_weight));
    let kept = g.conv_kernel - 1;
    let last = kept as usize;
    lemma_step_conv(m, g, p.1);
    lemma_step_conv(m, g, p.0);
    assert(aligned(m, p.0, 0, p.1, 0, kept));
    lemma_same_tap(m, w, last, (p.0, 1), 0, (p.1, 1), 0);
    lemma_same_taps(
        m,
        w,
        (tap(p.0, w, last, 1), tap(p.1, w, last, 1)),
        (p.0, 1),
        0,
        (p.1, 1),
        0,
        0,
        kept,
    );
    lemma_same_scan_in(m, g, x, (step_conv(g, p.0), conv_of(g, p.1, 1)), (1, 1), 0, 0);
}

/// A static step is refused only for the device or the width of the keys.
proof fn lemma_stepped(
    g: GatedDeltaNet,
    device: Device,
    x: Val,
    fixed: GdnState,
    buffers: Seq<Buf>,
    bufs: Bufs,
)
    requires
        g.wf(),
        g.state_ok(fixed),
        fixed.conv.fixed is Some && fixed.s.fixed is Some,
        fixed.conv.fixed->0.id != fixed.s.fixed->0.id,
    ensures
        ({
            let fine = device == Device::Cuda && scan_shared_bytes(g.d_k as int) <= 48 * 1024;
            let (c, s) = (fixed.conv.fixed->0, fixed.s.fixed->0);
            let padded = g.rolled(GatedDeltaNet::row(x), c, bufs);
            let scan = as_scan(g.scan_in(GatedDeltaNet::row(x), step_conv(g, padded), 1));
            let got = g.step_pass(device, x, fixed, buffers, bufs);
            &&& got is Ok <==> fine
            &&& got matches Ok(p) ==> {
                &&& p.out == g.output(
                    GatedDeltaNet::row(x),
                    scan.out(bufs[s.id as int]),
                    1,
                    x.dtype,
                )
                &&& p.bufs[c.id as int] == padded.term
                &&& p.bufs[s.id as int] == scan.state(bufs[s.id as int])
            }
        }),
{
    let (c, s) = (fixed.conv.fixed->0, fixed.s.fixed->0);
    let x_flat = GatedDeltaNet::row(x);
    let padded = g.rolled(x_flat, c, bufs);
    let w = leaf(Op::Param(g.conv1d_weight));
    let last = (g.conv_kernel - 1) as usize;
    assert(padded.shape == c.shape && padded.dtype == DType::F32) by {
        reveal(un);
        reveal(bin);
    }
    assert(tap(padded, w, last, 1).dtype == DType::F32) by {
        reveal(un);
        reveal(bin);
    }
    lemma_taps_dtype(tap(padded, w, last, 1), padded, w, 1, 0, last as int);
    lemma_scan_error(g, device, x_flat, step_conv(g, padded), 1, s);
}

/// A static step gives what a chunk of one token gives from an equal state, and
/// leaves in its fixed buffers the window and the state that the chunk leaves, in
/// readings in which sums do not depend on order. The one is refused where the
/// other is.
pub proof fn law_static_step_is_a_chunk_of_one<V>(
    m: Meaning<V>,
    g: GatedDeltaNet,
    device: Device,
    x: Val,
    fixed: GdnState,
    at: (Seq<Buf>, Bufs),
    eager: GdnState,
    by: (Seq<Buf>, Bufs),
)
    requires
        m.sums(),
        g.wf(),
        g.state_ok(fixed),
        g.state_ok(eager),
        x.shape == d3(1, 1, x.shape.d2),
        m.len(x.term) == 1,
        fixed.conv.fixed is Some && fixed.s.fixed is Some,
        fixed.conv.fixed->0.id != fixed.s.fixed->0.id,
        eager.conv.target(by.0, g.conv_shape()).id != eager.s.target(
            eager.conv.buffers_after(by.0, g.conv_shape()),
            g.s_shape(),
        ).id,
        sideways(at.1[fixed.conv.fixed->0.id as int]),
        sideways(window_of(g, eager, by.1)),
        forall|i: int|
            0 <= i < g.conv_kernel ==> #[trigger] m.at(at.1[fixed.conv.fixed->0.id as int], i)
                == m.at(window_of(g, eager, by.1), i),
        m.at(at.1[fixed.s.fixed->0.id as int], 0) == m.at(state_of(g, eager, by.1), 0),
    ensures
        g.step_pass(device, x, fixed, at.0, at.1) is Ok <==> g.pass(device, x, eager, by.0, by.1)
            is Ok,
        g.step_pass(device, x, fixed, at.0, at.1) matches Ok(p) ==> {
            let q = g.pass(device, x, eager, by.0, by.1)->Ok_0;
            &&& m.same(p.out, 0, q.out, 0)
            &&& forall|i: int|
                0 <= i < g.conv_kernel ==> #[trigger] m.at(
                    p.bufs[fixed.conv.fixed->0.id as int],
                    i,
                ) == m.at(window_of(g, q.state, q.bufs), i)
            &&& m.at(p.bufs[fixed.s.fixed->0.id as int], 0) == m.at(
                state_of(g, q.state, q.bufs),
                0,
            )
        },
{
    lemma_passed(g, device, x, eager, by.0, by.1);
    lemma_stepped(g, device, x, fixed, at.0, at.1);
    let (cbuf, sbuf) = (fixed.conv.fixed->0, fixed.s.fixed->0);
    let live = GdnState {
        conv: Slot {
            live: Live::Fixed,
            ..fixed.conv
        },
        s: fixed.s,
    };
    let x_flat = GatedDeltaNet::row(x);
    let rows = GatedDeltaNet::rows(x);
    let flat = Op::Reshape(d2(x.shape.d1, sat_product(x.shape.d0, x.shape.d2)));
    let all = sat_product(sat_product(x.shape.d0, x.shape.d1), x.shape.d2);
    let one = Op::Reshape(d2(1, all));
    lemma_un_extent(m, flat, x);
    lemma_un_extent(m, one, x);
    lemma_laid_out(m, flat, x, 0);
    lemma_laid_out(m, one, x, 0);
    let ps = g.rolled(x_flat, cbuf, at.1);
    assert(ps == g.padded(x_flat, live, at.1));
    let pe = g.padded(rows, eager, by.1);
    lemma_same_windows(m, g, (x_flat, rows), live, at.1, eager, by.1);
    lemma_same_step_scan(m, g, (x_flat, rows), (ps, pe));
    let (cs, ce) = (step_conv(g, ps), conv_of(g, pe, 1));
    let (a, b) = (as_scan(g.scan_in(x_flat, cs, 1)), as_scan(g.scan_in(rows, ce, 1)));
    if g.step_pass(device, x, fixed, at.0, at.1) is Ok {
        let p = g.step_pass(device, x, fixed, at.0, at.1)->Ok_0;
        let q = passed(g, x, eager, by.0, by.1);
        let s = at.1[sbuf.id as int];
        let r = state_of(g, eager, by.1);
        lemma_same_rates(m, g, x_flat, 0, rows, 0);
        lemma_same_rates(m, g, rows, 0, x_flat, 0);
        assert(m.len(a.beta.term) == 1 && m.len(b.beta.term) == 1);
        assert forall|i: int| 0 <= i < 1 implies #[trigger] a.same(m, i, b, i) by {}
        lemma_same_run(m, a, s, b, r, 1);
        assert(q.bufs[q.state.s.current()->0.id as int] == b.state(r));
        assert(m.at(a.state(s), 0) == m.after(a.state(s), 1));
        assert(m.at(b.state(r), 0) == m.after(b.state(r), 1));
        lemma_one_run(m, a, s, 1);
        lemma_one_run(m, b, r, 1);
        assert(m.same(a.out(s), 0, b.out(r), 0));
        lemma_same_output(
            m,
            g,
            (x_flat, rows),
            (a.out(s), b.out(r)),
            (1, 1),
            x.dtype,
            0,
            0,
        );
        let wide = Op::Narrow { dim: 1, start: 0, len: g.conv_kernel };
        assert(window_of(g, q.state, q.bufs) == un(wide, pe).term);
        assert forall|i: int| 0 <= i < g.conv_kernel implies #[trigger] m.at(
            p.bufs[cbuf.id as int],
            i,
        ) == m.at(window_of(g, q.state, q.bufs), i) by {
            assert(aligned(m, ps, 0, pe, 0, i));
            lemma_sliced(m, 0, g.conv_kernel, pe, i);
        }
    }
}

} // verus!
