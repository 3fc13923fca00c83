//! Recording of tensor programs, and what a recorded program means.
use vstd::prelude::*;

use crate::dtype::{Activation, DType, Device};
use crate::error::Error;
use crate::fused::SwigluAct;
use crate::shape::{d1, d2, d3, d4, sat_product, sat_sum, saturating_product, saturating_sum, Shape};

verus! {

/// A weight tensor, by its place in the list of weights that were asked for.
#[derive(Clone, Copy, PartialEq, Eq, Structural, Debug)]
pub struct Weight {
    pub id: usize,
    pub shape: Shape,
    pub dtype: DType,
}

/// A constant of a program, by the way it is computed.
#[derive(Clone, Copy, PartialEq, Eq, Structural, Debug)]
pub enum Scalar {
    /// The double with these bits.
    F64(u64),
    /// The double with these bits, rounded to single precision.
    F32(u64),
    /// A whole number.
    Int(usize),
    /// The double nearest to a quotient of whole numbers.
    Ratio { num: usize, den: usize },
    /// `n^(1/2)`.
    Sqrt(usize),
    /// `1 / n^(1/2)`.
    RecipSqrt(usize),
    /// `n^(-1/2)`, as a power.
    PowNegHalf(usize),
    /// `n^(-1/4)`, as a power.
    PowNegQuarter(usize),
}

/// How the combine weight of a routed expert follows from the router's row.
#[derive(Clone, Copy, PartialEq, Eq, Structural, Debug)]
pub enum GateRule {
    /// The router's probability itself.
    Raw,
    /// The probability over the sum of the chosen ones.
    Renormalized,
    /// As `Renormalized`, times the learned scale of the expert.
    Scaled(Weight),
}

/// For each token, the experts chosen for it.
pub type RoutingPlan = Vec<Vec<usize>>;

/// A plan as sequences.
pub open spec fn plan_view(plan: RoutingPlan) -> Seq<Seq<usize>> {
    Seq::new(plan.len() as nat, |i: int| plan[i]@)
}

/// How many experts a plan gives each token; every token gets as many as the
/// first.
pub open spec fn plan_width(plan: Seq<Seq<usize>>) -> usize {
    if plan.len() == 0 {
        0
    } else {
        plan[0].len() as usize
    }
}

/// One tensor operation with everything but its operands.
#[derive(Clone, Copy, PartialEq, Eq, Structural, Debug)]
pub enum Op {
    // -- without operand --
    Param(Weight),
    Input { slot: usize, shape: Shape, dtype: DType },
    Zeros { shape: Shape, dtype: DType },
    U32(u32),
    // -- one operand --
    Contiguous,
    ToDType(DType),
    Reshape(Shape),
    Transpose(usize, usize),
    Permute5 { p0: usize, p1: usize, p2: usize, p3: usize, p4: usize },
    Narrow { dim: usize, start: usize, len: usize },
    Select { dim: usize, index: usize },
    Unsqueeze(usize),
    Expand(Shape),
    RepeatKv(usize),
    Half { index: usize },
    /// What the append that made these contents hands out: `len` positions.
    CacheView { len: usize },
    BroadcastLeft(usize),
    AddScalar(Scalar),
    MulScalar(Scalar),
    DivScalar(Scalar),
    Sqr,
    Sqrt,
    Exp,
    Log,
    Tanh,
    Silu,
    Gelu,
    Sigmoid,
    Act(Activation),
    SoftmaxLast,
    SumKeep(usize),
    MeanKeep(usize),
    Sum(usize),
    ArgSortDescending,
    Linear(Weight),
    LinearBias(Weight, Weight),
    QMatMul(Weight),
    Embedding(Weight),
    LayerNorm(Weight, Weight, Scalar),
    RmsNorm(Weight, Scalar),
    Conv1d { weight: Weight, bias: Weight, padding: usize, stride: usize },
    Conv2d { weight: Weight, padding: usize, stride: usize },
    /// The image encoder that the weight stands for.
    SamEncoder { weight: Weight, patch: usize, channels: usize },
    /// A table of positions, after a class row, resampled to a square grid.
    InterpolatePositions { grid: usize },
    FusedSwiglu(SwigluAct),
    // -- two operands --
    Add,
    Mul,
    BroadcastAdd,
    BroadcastMul,
    BroadcastDiv,
    MatMul,
    Cat(usize),
    IndexSelect(usize),
    Gather(usize),
    IndexedMoe(Weight),
    /// The first operand times the single element of the second, as a constant.
    ScaleBy,
    // -- three operands --
    Rope,
    RopeInterleaved,
    IndexAdd(usize),
    FlashAttn { causal: bool },
    FusedAddRmsNorm { eps: Scalar, plus_one: bool },
    // -- contents of persistent buffers --
    KvRow,
    KvRows { pos: usize, len: usize },
    KvRowsAt,
    MaskRow { window: usize },
    MaskBlock { sliding: Option<usize> },
    AddU32(u32),
    Iota,
    CacheAppend { max_seq: usize, rotating: bool },
}

/// A persistent device buffer.
#[derive(Clone, Copy, PartialEq, Eq, Structural, Debug)]
pub struct Buf {
    pub id: usize,
    pub shape: Shape,
    pub dtype: DType,
}

/// One recorded step. Operands are the numbers of earlier steps; every step
/// yields a value under its own number, and the steps that change a buffer
/// yield a value that nothing reads.
#[derive(Debug)]
pub enum Instr {
    Leaf(Op),
    Un(Op, usize),
    Bin(Op, usize, usize),
    Tri(Op, usize, usize, usize),
    /// Token numbers chosen on the host.
    Ids(Vec<u32>),
    /// Combine weights of the chosen experts, from the router's probabilities:
    /// one row per token.
    Gates { rule: GateRule, probs: usize, plan: RoutingPlan },
    /// The elements at `(row, column)` pairs, one per row.
    Pick(usize, Vec<(usize, usize)>),
    /// An additive mask: minus infinity where `true`.
    Mask { rows: usize, cols: usize, blocked: Vec<bool> },
    /// The contents of a buffer.
    Read(Buf),
    /// The buffer gets the value of an operation without operand.
    Fill(Buf, Op),
    /// The buffer gets the operation applied to the contents of another.
    Derive(Buf, Op, Buf),
    /// The buffer gets an earlier value.
    Store(Buf, usize),
    /// The buffer gets the operation applied to its contents and a value.
    Update(Buf, Op, usize),
    /// The buffer gets the operation applied to its contents, a value and the
    /// contents of another buffer.
    UpdateAt(Buf, Op, usize, Buf),
    /// One row of keys and one of values, at the position held in a buffer.
    KvWrite { kbuf: Buf, vbuf: Buf, k: usize, v: usize, pos: Buf },
    /// The gated delta rule over a whole chunk; the state buffer is advanced.
    Scan { q: usize, k: usize, v: usize, beta: usize, decay: usize, state: Buf },
}

/// The value of a tensor as a formula over weights, inputs and the contents
/// that the buffers had when recording began.
pub enum Term {
    Nothing,
    Entry(int),
    Leaf(Op),
    Un(Op, Box<Term>),
    Bin(Op, Box<Term>, Box<Term>),
    Tri(Op, Box<Term>, Box<Term>, Box<Term>),
    Ids(Seq<u32>),
    Gates(GateRule, Box<Term>, Seq<Seq<usize>>),
    Pick(Box<Term>, Seq<(usize, usize)>),
    Mask(usize, usize, Seq<bool>),
    ScanOutput(Box<Term>, Box<Term>, Box<Term>, Box<Term>, Box<Term>, Box<Term>),
    ScanState(Box<Term>, Box<Term>, Box<Term>, Box<Term>, Box<Term>, Box<Term>),
}

/// A value together with its shape and element type.
pub struct Val {
    pub term: Term,
    pub shape: Shape,
    pub dtype: DType,
}

/// Extents after permuting five axes.
pub open spec fn permuted(s: Shape, p0: usize, p1: usize, p2: usize, p3: usize, p4: usize) -> Shape {
    Shape { rank: s.rank, d0: s.get(p0), d1: s.get(p1), d2: s.get(p2), d3: s.get(p3), d4: s.get(p4) }
}

/// Extent of a convolution's output along one axis.
pub open spec fn conv_extent(n: usize, kernel: usize, padding: usize, stride: usize) -> usize {
    let padded = sat_sum(n, sat_sum(padding, padding));
    if padded < kernel || stride == 0 {
        0
    } else {
        sat_sum(((padded - kernel) / stride as int) as usize, 1)
    }
}

pub open spec fn leaf_shape(op: Op) -> Shape {
    match op {
        Op::Param(w) => w.shape,
        Op::Input { slot, shape, dtype } => shape,
        Op::Zeros { shape, dtype } => shape,
        _ => d1(1),
    }
}

pub open spec fn leaf_dtype(op: Op) -> DType {
    match op {
        Op::Param(w) => w.dtype,
        Op::Input { slot, shape, dtype } => dtype,
        Op::Zeros { shape, dtype } => dtype,
        _ => DType::U32,
    }
}

/// Shape that an operation gives on an operand of shape `s`. Operations that
/// work element by element keep it.
pub open spec fn un_shape(op: Op, s: Shape) -> Shape {
    match op {
        Op::Reshape(n) => n,
        Op::Expand(n) => n,
        Op::Transpose(i, j) => s.swap(i, j),
        Op::Permute5 { p0, p1, p2, p3, p4 } => permuted(s, p0, p1, p2, p3, p4),
        Op::Narrow { dim, start, len } => s.set(dim, len),
        Op::Select { dim, index } => s.remove(dim),
        Op::Unsqueeze(i) => s.insert(i, 1),
        Op::RepeatKv(n) => s.set(1, sat_product(s.get(1), n)),
        Op::Half { index } => s.with_last(
            if index == 0 { (s.last() / 2 + s.last() % 2) as usize } else { s.last() / 2 },
        ),
        Op::CacheView { len } => s.set(2, len),
        Op::BroadcastLeft(n) => s.insert(0, n),
        Op::SumKeep(i) => s.set(i, 1),
        Op::MeanKeep(i) => s.set(i, 1),
        Op::Sum(i) => s.remove(i),
        Op::Linear(w) => s.with_last(w.shape.d0),
        Op::LinearBias(w, b) => s.with_last(w.shape.d0),
        Op::QMatMul(w) => s.with_last(w.shape.d0),
        Op::Embedding(w) => s.insert(s.rank, w.shape.d1),
        Op::Conv1d { weight, bias, padding, stride } => d3(
            s.d0,
            weight.shape.d0,
            conv_extent(s.d2, weight.shape.d2, padding, stride),
        ),
        Op::Conv2d { weight, padding, stride } => d4(
            s.d0,
            weight.shape.d0,
            conv_extent(s.d2, weight.shape.d2, padding, stride),
            conv_extent(s.d3, weight.shape.d3, padding, stride),
        ),
        Op::SamEncoder { weight, patch, channels } => d4(
            s.d0,
            channels,
            if patch == 0 { 0 } else { s.d2 / patch },
            if patch == 0 { 0 } else { s.d3 / patch },
        ),
        Op::InterpolatePositions { grid } => s.set(1, sat_product(grid, grid)),
        Op::FusedSwiglu(act) => s.with_last(s.last() / 2),
        _ => s,
    }
}

pub open spec fn un_dtype(op: Op, t: DType) -> DType {
    match op {
        Op::ToDType(d) => d,
        Op::ArgSortDescending => DType::U32,
        Op::Embedding(w) => w.dtype,
        _ => t,
    }
}

pub open spec fn bin_shape(op: Op, a: Shape, b: Shape) -> Shape {
    match op {
        Op::MatMul => a.with_last(b.last()),
        Op::Cat(i) => a.set(i, sat_sum(a.get(i), b.get(i))),
        Op::IndexSelect(i) => a.set(i, b.d0),
        Op::Gather(i) => b,
        Op::IndexedMoe(w) => d3(b.d0, b.d1, w.shape.d1),
        _ => a,
    }
}

pub open spec fn tri_shape(op: Op, a: Shape, b: Shape, c: Shape) -> Shape {
    match op {
        Op::FusedAddRmsNorm { eps, plus_one } => a.insert(0, 2),
        _ => a,
    }
}

pub open spec fn leaf(op: Op) -> Val {
    Val { term: Term::Leaf(op), shape: leaf_shape(op), dtype: leaf_dtype(op) }
}

/// The operation applied to one value. Laying a tensor out anew leaves the
/// value as it is.
#[verifier::opaque]
pub open spec fn un(op: Op, a: Val) -> Val {
    if op == Op::Contiguous {
        a
    } else {
        Val {
            term: Term::Un(op, Box::new(a.term)),
            shape: un_shape(op, a.shape),
            dtype: un_dtype(op, a.dtype),
        }
    }
}

#[verifier::opaque]
pub open spec fn bin(op: Op, a: Val, b: Val) -> Val {
    Val {
        term: Term::Bin(op, Box::new(a.term), Box::new(b.term)),
        shape: bin_shape(op, a.shape, b.shape),
        dtype: a.dtype,
    }
}

#[verifier::opaque]
pub open spec fn tri(op: Op, a: Val, b: Val, c: Val) -> Val {
    Val {
        term: Term::Tri(op, Box::new(a.term), Box::new(b.term), Box::new(c.term)),
        shape: tri_shape(op, a.shape, b.shape, c.shape),
        dtype: a.dtype,
    }
}

pub open spec fn ids_val(ids: Seq<u32>) -> Val {
    Val { term: Term::Ids(ids), shape: d1(ids.len() as usize), dtype: DType::U32 }
}

pub open spec fn gates_val(rule: GateRule, probs: Val, plan: Seq<Seq<usize>>) -> Val {
    Val {
        term: Term::Gates(rule, Box::new(probs.term), plan),
        shape: d2(plan.len() as usize, plan_width(plan)),
        dtype: DType::F32,
    }
}

pub open spec fn pick_val(a: Val, at: Seq<(usize, usize)>) -> Val {
    Val {
        term: Term::Pick(Box::new(a.term), at),
        shape: d2(at.len() as usize, 1),
        dtype: a.dtype,
    }
}

pub open spec fn mask_val(rows: usize, cols: usize, blocked: Seq<bool>) -> Val {
    Val { term: Term::Mask(rows, cols, blocked), shape: d2(rows, cols), dtype: DType::F32 }
}

pub open spec fn nothing() -> Val {
    Val { term: Term::Nothing, shape: d1(0), dtype: DType::U32 }
}

/// The contents of the buffers, by number.
pub type Bufs = Map<int, Term>;

/// Contents of `buf` as a value.
pub open spec fn held(bufs: Bufs, buf: Buf) -> Val {
    Val { term: bufs[buf.id as int], shape: buf.shape, dtype: buf.dtype }
}

pub open spec fn un_term(op: Op, a: Term) -> Term {
    Term::Un(op, Box::new(a))
}

pub open spec fn bin_term(op: Op, a: Term, b: Term) -> Term {
    Term::Bin(op, Box::new(a), Box::new(b))
}

pub open spec fn tri_term(op: Op, a: Term, b: Term, c: Term) -> Term {
    Term::Tri(op, Box::new(a), Box::new(b), Box::new(c))
}

/// Output of the gated delta rule on a chunk.
pub open spec fn scan_output(q: Val, k: Val, v: Val, beta: Val, decay: Val, state: Term) -> Val {
    Val {
        term: Term::ScanOutput(
            Box::new(q.term),
            Box::new(k.term),
            Box::new(v.term),
            Box::new(beta.term),
            Box::new(decay.term),
            Box::new(state),
        ),
        shape: d3(q.shape.d0, v.shape.d1, v.shape.d2),
        dtype: DType::F32,
    }
}

/// State after the gated delta rule on a chunk.
pub open spec fn scan_state(q: Val, k: Val, v: Val, beta: Val, decay: Val, state: Term) -> Term {
    Term::ScanState(
        Box::new(q.term),
        Box::new(k.term),
        Box::new(v.term),
        Box::new(beta.term),
        Box::new(decay.term),
        Box::new(state),
    )
}

/// What recorded steps amount to: the value of each step, and the contents of
/// the buffers.
pub struct State {
    pub regs: Seq<Val>,
    pub bufs: Bufs,
}

pub open spec fn step(s: State, i: Instr) -> State {
    match i {
        Instr::Leaf(op) => State { regs: s.regs.push(leaf(op)), bufs: s.bufs },
        Instr::Un(op, a) => State { regs: s.regs.push(un(op, s.regs[a as int])), bufs: s.bufs },
        Instr::Bin(op, a, b) => State {
            regs: s.regs.push(bin(op, s.regs[a as int], s.regs[b as int])),
            bufs: s.bufs,
        },
        Instr::Tri(op, a, b, c) => State {
            regs: s.regs.push(tri(op, s.regs[a as int], s.regs[b as int], s.regs[c as int])),
            bufs: s.bufs,
        },
        Instr::Ids(v) => State { regs: s.regs.push(ids_val(v@)), bufs: s.bufs },
        Instr::Gates { rule, probs, plan } => State {
            regs: s.regs.push(gates_val(rule, s.regs[probs as int], plan_view(plan))),
            bufs: s.bufs,
        },
        Instr::Pick(a, at) => State {
            regs: s.regs.push(pick_val(s.regs[a as int], at@)),
            bufs: s.bufs,
        },
        Instr::Mask { rows, cols, blocked } => State {
            regs: s.regs.push(mask_val(rows, cols, blocked@)),
            bufs: s.bufs,
        },
        Instr::Read(buf) => State { regs: s.regs.push(held(s.bufs, buf)), bufs: s.bufs },
        Instr::Fill(buf, op) => State {
            regs: s.regs.push(nothing()),
            bufs: s.bufs.insert(buf.id as int, Term::Leaf(op)),
        },
        Instr::Derive(buf, op, src) => State {
            regs: s.regs.push(nothing()),
            bufs: s.bufs.insert(buf.id as int, un_term(op, s.bufs[src.id as int])),
        },
        Instr::Store(buf, a) => State {
            regs: s.regs.push(nothing()),
            bufs: s.bufs.insert(buf.id as int, s.regs[a as int].term),
        },
        Instr::Update(buf, op, a) => State {
            regs: s.regs.push(nothing()),
            bufs: s.bufs.insert(
                buf.id as int,
                bin_term(op, s.bufs[buf.id as int], s.regs[a as int].term),
            ),
        },
        Instr::UpdateAt(buf, op, a, at) => State {
            regs: s.regs.push(nothing()),
            bufs: s.bufs.insert(
                buf.id as int,
                tri_term(op, s.bufs[buf.id as int], s.regs[a as int].term, s.bufs[at.id as int]),
            ),
        },
        Instr::KvWrite { kbuf, vbuf, k, v, pos } => State {
            regs: s.regs.push(nothing()),
            bufs: kv_written(s.bufs, kbuf, vbuf, s.regs[k as int], s.regs[v as int], pos),
        },
        Instr::Scan { q, k, v, beta, decay, state } => State {
            regs: s.regs.push(
                scan_output(
                    s.regs[q as int],
                    s.regs[k as int],
                    s.regs[v as int],
                    s.regs[beta as int],
                    s.regs[decay as int],
                    s.bufs[state.id as int],
                ),
            ),
            bufs: s.bufs.insert(
                state.id as int,
                scan_state(
                    s.regs[q as int],
                    s.regs[k as int],
                    s.regs[v as int],
                    s.regs[beta as int],
                    s.regs[decay as int],
                    s.bufs[state.id as int],
                ),
            ),
        },
    }
}

/// Buffer contents after one row of keys and values was written at the
/// position held in `pos`.
pub open spec fn kv_written(bufs: Bufs, kbuf: Buf, vbuf: Buf, k: Val, v: Val, pos: Buf) -> Bufs {
    let at = bufs[pos.id as int];
    bufs.insert(kbuf.id as int, tri_term(Op::KvRow, bufs[kbuf.id as int], k.term, at)).insert(
        vbuf.id as int,
        tri_term(Op::KvRow, bufs[vbuf.id as int], v.term, at),
    )
}

/// The value of a tensor that may be missing.
pub open spec fn opt_val(x: Option<Tensor>) -> Option<Val> {
    match x {
        Some(y) => Some(y@),
        None => None,
    }
}

/// What a whole program amounts to, from the contents at entry.
pub open spec fn run(program: Seq<Instr>) -> State
    decreases program.len(),
{
    if program.len() == 0 {
        State { regs: Seq::empty(), bufs: Map::new(|i: int| true, |i: int| Term::Entry(i)) }
    } else {
        step(run(program.drop_last()), program.last())
    }
}

/// A value on the tape. The formula is ghost; shape and element type are known
/// while recording.
#[derive(Clone, Copy)]
pub struct Tensor {
    pub reg: usize,
    pub shape: Shape,
    pub dtype: DType,
    pub term: Ghost<Term>,
}

impl View for Tensor {
    type V = Val;

    open spec fn view(&self) -> Val {
        Val { term: self.term@, shape: self.shape, dtype: self.dtype }
    }
}

impl Tensor {
    /// The extents of a tensor with two axes.
    pub fn dims2(self) -> (r: Result<(usize, usize), Error>)
        ensures
            self.shape.rank == 2 ==> r == Ok::<(usize, usize), Error>(
                (self.shape.d0, self.shape.d1),
            ),
            self.shape.rank != 2 ==> r == Err::<(usize, usize), Error>(
                Error::UnexpectedRank { expected: 2, got: self.shape.rank },
            ),
    {
        if self.shape.rank == 2 {
            Ok((self.shape.d0, self.shape.d1))
        } else {
            Err(Error::UnexpectedRank { expected: 2, got: self.shape.rank })
        }
    }

    /// The extents of a tensor with three axes.
    pub fn dims3(self) -> (r: Result<(usize, usize, usize), Error>)
        ensures
            self.shape.rank == 3 ==> r == Ok::<(usize, usize, usize), Error>(
                (self.shape.d0, self.shape.d1, self.shape.d2),
            ),
            self.shape.rank != 3 ==> r == Err::<(usize, usize, usize), Error>(
                Error::UnexpectedRank { expected: 3, got: self.shape.rank },
            ),
    {
        if self.shape.rank == 3 {
            Ok((self.shape.d0, self.shape.d1, self.shape.d2))
        } else {
            Err(Error::UnexpectedRank { expected: 3, got: self.shape.rank })
        }
    }

    /// The extents of a tensor with four axes.
    pub fn dims4(self) -> (r: Result<(usize, usize, usize, usize), Error>)
        ensures
            self.shape.rank == 4 ==> r == Ok::<(usize, usize, usize, usize), Error>(
                (self.shape.d0, self.shape.d1, self.shape.d2, self.shape.d3),
            ),
            self.shape.rank != 4 ==> r == Err::<(usize, usize, usize, usize), Error>(
                Error::UnexpectedRank { expected: 4, got: self.shape.rank },
            ),
    {
        if self.shape.rank == 4 {
            Ok((self.shape.d0, self.shape.d1, self.shape.d2, self.shape.d3))
        } else {
            Err(Error::UnexpectedRank { expected: 4, got: self.shape.rank })
        }
    }
}

fn conv_out(n: usize, kernel: usize, padding: usize, stride: usize) -> (r: usize)
    ensures
        r == conv_extent(n, kernel, padding, stride),
{
    let padded = saturating_sum(n, saturating_sum(padding, padding));
    if padded < kernel || stride == 0 {
        0
    } else {
        saturating_sum((padded - kernel) / stride, 1)
    }
}

fn shape_of_leaf(op: Op) -> (r: Shape)
    ensures
        r == leaf_shape(op),
{
    match op {
        Op::Param(w) => w.shape,
        Op::Input { slot, shape, dtype } => shape,
        Op::Zeros { shape, dtype } => shape,
        _ => d1(1),
    }
}

fn dtype_of_leaf(op: Op) -> (r: DType)
    ensures
        r == leaf_dtype(op),
{
    match op {
        Op::Param(w) => w.dtype,
        Op::Input { slot, shape, dtype } => dtype,
        Op::Zeros { shape, dtype } => dtype,
        _ => DType::U32,
    }
}

fn shape_of_un(op: Op, s: Shape) -> (r: Shape)
    ensures
        r == un_shape(op, s),
{
    match op {
        Op::Reshape(n) => n,
        Op::Expand(n) => n,
        Op::Transpose(i, j) => s.swap(i, j),
        Op::Permute5 { p0, p1, p2, p3, p4 } => Shape {
            rank: s.rank,
            d0: s.get(p0),
            d1: s.get(p1),
            d2: s.get(p2),
            d3: s.get(p3),
            d4: s.get(p4),
        },
        Op::Narrow { dim, start, len } => s.set(dim, len),
        Op::Select { dim, index } => s.remove(dim),
        Op::Unsqueeze(i) => s.insert(i, 1),
        Op::RepeatKv(n) => s.set(1, saturating_product(s.get(1), n)),
        Op::Half { index } => {
            let n = s.last();
            s.with_last(if index == 0 { n / 2 + n % 2 } else { n / 2 })
        },
        Op::CacheView { len } => s.set(2, len),
        Op::BroadcastLeft(n) => s.insert(0, n),
        Op::SumKeep(i) => s.set(i, 1),
        Op::MeanKeep(i) => s.set(i, 1),
        Op::Sum(i) => s.remove(i),
        Op::Linear(w) => s.with_last(w.shape.d0),
        Op::LinearBias(w, b) => s.with_last(w.shape.d0),
        Op::QMatMul(w) => s.with_last(w.shape.d0),
        Op::Embedding(w) => s.insert(s.rank, w.shape.d1),
        Op::Conv1d { weight, bias, padding, stride } => d3(
            s.d0,
            weight.shape.d0,
            conv_out(s.d2, weight.shape.d2, padding, stride),
        ),
        Op::Conv2d { weight, padding, stride } => d4(
            s.d0,
            weight.shape.d0,
            conv_out(s.d2, weight.shape.d2, padding, stride),
            conv_out(s.d3, weight.shape.d3, padding, stride),
        ),
        Op::SamEncoder { weight, patch, channels } => d4(
            s.d0,
            channels,
            if patch == 0 { 0 } else { s.d2 / patch },
            if patch == 0 { 0 } else { s.d3 / patch },
        ),
        Op::InterpolatePositions { grid } => s.set(1, saturating_product(grid, grid)),
        Op::FusedSwiglu(act) => s.with_last(s.last() / 2),
        _ => s,
    }
}

fn dtype_of_un(op: Op, t: DType) -> (r: DType)
    ensures
        r == un_dtype(op, t),
{
    match op {
        Op::ToDType(d) => d,
        Op::ArgSortDescending => DType::U32,
        Op::Embedding(w) => w.dtype,
        _ => t,
    }
}

fn shape_of_bin(op: Op, a: Shape, b: Shape) -> (r: Shape)
    ensures
        r == bin_shape(op, a, b),
{
    match op {
        Op::MatMul => a.with_last(b.last()),
        Op::Cat(i) => a.set(i, saturating_sum(a.get(i), b.get(i))),
        Op::IndexSelect(i) => a.set(i, b.d0),
        Op::Gather(i) => b,
        Op::IndexedMoe(w) => d3(b.d0, b.d1, w.shape.d1),
        _ => a,
    }
}

fn shape_of_tri(op: Op, a: Shape, b: Shape, c: Shape) -> (r: Shape)
    ensures
        r == tri_shape(op, a, b, c),
{
    match op {
        Op::FusedAddRmsNorm { eps, plus_one } => a.insert(0, 2),
        _ => a,
    }
}

/// A program being recorded, and the buffers that outlive it.
pub struct Tape {
    program: Vec<Instr>,
    buffers: Vec<Buf>,
    device: Device,
}

impl Tape {
    /// The recorded steps.
    pub closed spec fn steps(&self) -> Seq<Instr> {
        self.program@
    }

    /// The buffers that were made, in order.
    pub closed spec fn buffers(&self) -> Seq<Buf> {
        self.buffers@
    }

    /// The device that the program is for.
    pub closed spec fn on(&self) -> Device {
        self.device
    }

    pub closed spec fn state(&self) -> State {
        run(self.program@)
    }

    /// Contents of the buffers after the recorded steps.
    pub open spec fn bufs(&self) -> Bufs {
        self.state().bufs
    }

    /// `x` is the value of one of the recorded steps.
    pub open spec fn has(&self, x: Tensor) -> bool {
        x.reg < self.state().regs.len() && self.state().regs[x.reg as int] == x@
    }

    pub open spec fn has_opt(&self, x: Option<Tensor>) -> bool {
        x matches Some(y) ==> self.has(y)
    }

    /// Everything that was on `before` is still there.
    pub open spec fn grew(&self, before: Tape) -> bool {
        &&& self.on() == before.on()
        &&& forall|x: Tensor| before.has(x) ==> #[trigger] self.has(x)
    }

    /// `self` goes on from `before` without making a buffer.
    pub open spec fn wrote(&self, before: Tape) -> bool {
        &&& self.grew(before)
        &&& self.buffers() == before.buffers()
    }

    /// `self` goes on from `before` without making or changing a buffer.
    pub open spec fn computed(&self, before: Tape) -> bool {
        &&& self.wrote(before)
        &&& self.bufs() == before.bufs()
    }

    pub fn new(device: Device) -> (t: Tape)
        ensures
            t.on() == device,
            t.steps() == Seq::<Instr>::empty(),
            t.buffers() == Seq::<Buf>::empty(),
    {
        Tape { program: Vec::new(), buffers: Vec::new(), device }
    }

    pub fn device(&self) -> (d: Device)
        ensures
            d == self.on(),
    {
        self.device
    }

    /// The program as far as it is recorded.
    pub fn program(&self) -> (program: &Vec<Instr>)
        ensures
            program@ == self.steps(),
    {
        &self.program
    }

    /// Hands the recorded program out and starts the next one, on the same
    /// buffers.
    pub fn finish(&mut self) -> (program: Vec<Instr>)
        ensures
            program@ == old(self).steps(),
            final(self).steps() == Seq::<Instr>::empty(),
            final(self).buffers() == old(self).buffers(),
            final(self).on() == old(self).on(),
    {
        let mut program: Vec<Instr> = Vec::new();
        program.append(&mut self.program);
        program
    }

    /// A program without steps has touched no buffer.
    pub proof fn law_fresh_program(&self)
        requires
            self.steps() == Seq::<Instr>::empty(),
        ensures
            forall|i: int| #[trigger] self.bufs()[i] == Term::Entry(i),
    {
    }

    fn push(&mut self, i: Instr)
        ensures
            final(self).state() == step(old(self).state(), i),
            final(self).steps() == old(self).steps().push(i),
            final(self).buffers() == old(self).buffers(),
            final(self).on() == old(self).on(),
            old(self).state().regs.len() == old(self).steps().len(),
    {
        proof {
            lemma_run_len(self.program@);
            assert(self.program@.push(i).drop_last() == self.program@);
        }
        self.program.push(i);
    }

    /// Records an operation without operand.
    pub fn leaf(&mut self, op: Op) -> (r: Tensor)
        ensures
            final(self).computed(*old(self)),
            final(self).has(r),
            r@ == leaf(op),
    {
        let reg: usize = self.program.len();
        self.push(Instr::Leaf(op));
        Tensor {
            reg,
            shape: shape_of_leaf(op),
            dtype: dtype_of_leaf(op),
            term: Ghost(leaf(op).term),
        }
    }

    /// Records an operation on one value.
    pub fn un(&mut self, op: Op, a: Tensor) -> (r: Tensor)
        requires
            old(self).has(a),
        ensures
            final(self).computed(*old(self)),
            final(self).has(r),
            r@ == un(op, a@),
    {
        reveal(un);
        let reg: usize = self.program.len();
        self.push(Instr::Un(op, a.reg));
        if op == Op::Contiguous {
            Tensor { reg, shape: a.shape, dtype: a.dtype, term: Ghost(un(op, a@).term) }
        } else {
            Tensor {
                reg,
                shape: shape_of_un(op, a.shape),
                dtype: dtype_of_un(op, a.dtype),
                term: Ghost(un(op, a@).term),
            }
        }
    }

    /// Records an operation on two values.
    pub fn bin(&mut self, op: Op, a: Tensor, b: Tensor) -> (r: Tensor)
        requires
            old(self).has(a),
            old(self).has(b),
        ensures
            final(self).computed(*old(self)),
            final(self).has(r),
            r@ == bin(op, a@, b@),
    {
        reveal(bin);
        let reg: usize = self.program.len();
        self.push(Instr::Bin(op, a.reg, b.reg));
        Tensor {
            reg,
            shape: shape_of_bin(op, a.shape, b.shape),
            dtype: a.dtype,
            term: Ghost(bin(op, a@, b@).term),
        }
    }

    /// Records an operation on three values.
    pub fn tri(&mut self, op: Op, a: Tensor, b: Tensor, c: Tensor) -> (r: Tensor)
        requires
            old(self).has(a),
            old(self).has(b),
            old(self).has(c),
        ensures
            final(self).computed(*old(self)),
            final(self).has(r),
            r@ == tri(op, a@, b@, c@),
    {
        reveal(tri);
        let reg: usize = self.program.len();
        self.push(Instr::Tri(op, a.reg, b.reg, c.reg));
        Tensor {
            reg,
            shape: shape_of_tri(op, a.shape, b.shape, c.shape),
            dtype: a.dtype,
            term: Ghost(tri(op, a@, b@, c@).term),
        }
    }

    /// Records token numbers that were chosen on the host.
    pub fn ids(&mut self, ids: Vec<u32>) -> (r: Tensor)
        ensures
            final(self).computed(*old(self)),
            final(self).has(r),
            r@ == ids_val(ids@),
    {
        let reg: usize = self.program.len();
        let n: usize = ids.len();
        let ghost term = Term::Ids(ids@);
        self.push(Instr::Ids(ids));
        Tensor { reg, shape: d1(n), dtype: DType::U32, term: Ghost(term) }
    }

    /// Records the combine weights of the chosen experts.
    pub fn gates(&mut self, rule: GateRule, probs: Tensor, plan: RoutingPlan) -> (r: Tensor)
        requires
            old(self).has(probs),
        ensures
            final(self).computed(*old(self)),
            final(self).has(r),
            r@ == gates_val(rule, probs@, plan_view(plan)),
    {
        let reg: usize = self.program.len();
        let n: usize = plan.len();
        let width: usize = if n == 0 { 0 } else { plan[0].len() };
        let ghost term = gates_val(rule, probs@, plan_view(plan)).term;
        self.push(Instr::Gates { rule, probs: probs.reg, plan });
        Tensor { reg, shape: d2(n, width), dtype: DType::F32, term: Ghost(term) }
    }

    /// Records the elements of `a` at `(row, column)` pairs.
    pub fn pick(&mut self, a: Tensor, at: Vec<(usize, usize)>) -> (r: Tensor)
        requires
            old(self).has(a),
        ensures
            final(self).computed(*old(self)),
            final(self).has(r),
            r@ == pick_val(a@, at@),
    {
        let reg: usize = self.program.len();
        let n: usize = at.len();
        let ghost term = pick_val(a@, at@).term;
        self.push(Instr::Pick(a.reg, at));
        Tensor { reg, shape: d2(n, 1), dtype: a.dtype, term: Ghost(term) }
    }

    /// Records an additive mask of `rows` by `cols` cells.
    pub fn mask(&mut self, rows: usize, cols: usize, blocked: Vec<bool>) -> (r: Tensor)
        ensures
            final(self).computed(*old(self)),
            final(self).has(r),
            r@ == mask_val(rows, cols, blocked@),
    {
        let reg: usize = self.program.len();
        let ghost term = Term::Mask(rows, cols, blocked@);
        self.push(Instr::Mask { rows, cols, blocked });
        Tensor { reg, shape: d2(rows, cols), dtype: DType::F32, term: Ghost(term) }
    }

    /// Makes a buffer filled with zeros.
    pub fn allocate(&mut self, shape: Shape, dtype: DType) -> (buf: Buf)
        ensures
            final(self).grew(*old(self)),
            final(self).buffers() == old(self).buffers().push(buf),
            buf == (Buf { id: old(self).buffers().len() as usize, shape, dtype }),
            final(self).bufs() == old(self).bufs().insert(
                buf.id as int,
                Term::Leaf(Op::Zeros { shape, dtype }),
            ),
    {
        let buf = Buf { id: self.buffers.len(), shape, dtype };
        self.push(Instr::Fill(buf, Op::Zeros { shape, dtype }));
        self.buffers.push(buf);
        buf
    }

    /// Records a read of a whole buffer.
    pub fn read(&mut self, buf: Buf) -> (r: Tensor)
        ensures
            final(self).computed(*old(self)),
            final(self).has(r),
            r@ == held(old(self).bufs(), buf),
    {
        let reg: usize = self.program.len();
        let ghost term = self.bufs()[buf.id as int];
        self.push(Instr::Read(buf));
        Tensor { reg, shape: buf.shape, dtype: buf.dtype, term: Ghost(term) }
    }

    /// Records that a buffer gets the value of an operation without operand.
    pub fn fill(&mut self, buf: Buf, op: Op)
        ensures
            final(self).wrote(*old(self)),
            final(self).bufs() == old(self).bufs().insert(buf.id as int, Term::Leaf(op)),
    {
        self.push(Instr::Fill(buf, op));
    }

    /// Records that a buffer gets an operation on the contents of another.
    pub fn derive_from(&mut self, buf: Buf, op: Op, src: Buf)
        ensures
            final(self).wrote(*old(self)),
            final(self).bufs() == old(self).bufs().insert(
                buf.id as int,
                un_term(op, old(self).bufs()[src.id as int]),
            ),
    {
        self.push(Instr::Derive(buf, op, src));
    }

    /// Records that a buffer gets a value.
    pub fn store(&mut self, buf: Buf, a: Tensor)
        requires
            old(self).has(a),
        ensures
            final(self).wrote(*old(self)),
            final(self).bufs() == old(self).bufs().insert(buf.id as int, a@.term),
    {
        self.push(Instr::Store(buf, a.reg));
    }

    /// Records that a buffer gets an operation on its contents and a value.
    pub fn update(&mut self, buf: Buf, op: Op, a: Tensor)
        requires
            old(self).has(a),
        ensures
            final(self).wrote(*old(self)),
            final(self).bufs() == old(self).bufs().insert(
                buf.id as int,
                bin_term(op, old(self).bufs()[buf.id as int], a@.term),
            ),
    {
        self.push(Instr::Update(buf, op, a.reg));
    }

    /// Records that a buffer gets an operation on its contents, a value and the
    /// contents of another buffer.
    pub fn update_at(&mut self, buf: Buf, op: Op, a: Tensor, at: Buf)
        requires
            old(self).has(a),
        ensures
            final(self).wrote(*old(self)),
            final(self).bufs() == old(self).bufs().insert(
                buf.id as int,
                tri_term(
                    op,
                    old(self).bufs()[buf.id as int],
                    a@.term,
                    old(self).bufs()[at.id as int],
                ),
            ),
    {
        self.push(Instr::UpdateAt(buf, op, a.reg, at));
    }

    /// Records one row of keys and values at the position held in `pos`.
    pub fn kv_row(&mut self, kbuf: Buf, vbuf: Buf, k: Tensor, v: Tensor, pos: Buf)
        requires
            old(self).has(k),
            old(self).has(v),
        ensures
            final(self).wrote(*old(self)),
            final(self).bufs() == kv_written(old(self).bufs(), kbuf, vbuf, k@, v@, pos),
    {
        self.push(Instr::KvWrite { kbuf, vbuf, k: k.reg, v: v.reg, pos });
    }

    /// Records the gated delta rule over a chunk, advancing `state`.
    pub fn scan(
        &mut self,
        q: Tensor,
        k: Tensor,
        v: Tensor,
        beta: Tensor,
        decay: Tensor,
        state: Buf,
    ) -> (r: Tensor)
        requires
            old(self).has(q),
            old(self).has(k),
            old(self).has(v),
            old(self).has(beta),
            old(self).has(decay),
        ensures
            final(self).wrote(*old(self)),
            final(self).has(r),
            r@ == scan_output(q@, k@, v@, beta@, decay@, old(self).bufs()[state.id as int]),
            final(self).bufs() == old(self).bufs().insert(
                state.id as int,
                scan_state(q@, k@, v@, beta@, decay@, old(self).bufs()[state.id as int]),
            ),
    {
        let reg: usize = self.program.len();
        let ghost term = scan_output(
            q@,
            k@,
            v@,
            beta@,
            decay@,
            self.bufs()[state.id as int],
        ).term;
        self.push(
            Instr::Scan {
                q: q.reg,
                k: k.reg,
                v: v.reg,
                beta: beta.reg,
                decay: decay.reg,
                state,
            },
        );
        Tensor {
            reg,
            shape: d3(q.shape.d0, v.shape.d1, v.shape.d2),
            dtype: DType::F32,
            term: Ghost(term),
        }
    }
}

proof fn lemma_run_len(program: Seq<Instr>)
    ensures
        run(program).regs.len() == program.len(),
    decreases program.len(),
{
    if program.len() > 0 {
        lemma_run_len(program.drop_last());
    }
}

} // verus!
