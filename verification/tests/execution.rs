//! Recorded programs carried out on plain arrays, so that the different ways
//! of recording the same work can be held against each other.
use std::collections::{HashMap, HashSet};

use tensor_tape::dtype::{Activation, DType, Device};
use tensor_tape::fused::SwigluAct;
use tensor_tape::gemma4::config::{Gemma4TextConfig, LayerType, Switches};
use tensor_tape::gemma4::model as gemma;
use tensor_tape::loader::{Loader, Recipe, Request, RopePrecision, VarPath};
use tensor_tape::quant::GgmlDType;
use tensor_tape::qwen3_5::config::Qwen35TextConfig;
use tensor_tape::qwen3_5::ffn::ExpertSource;
use tensor_tape::qwen3_5::model as qwen;
use tensor_tape::shape::{d2, d3, Shape};
use tensor_tape::static_decode::write_u32;
use tensor_tape::tape::{GateRule, Instr, Op, Scalar, Tape, Tensor};
use tensor_tape::unlimited_ocr::config::UnlimitedOcrTextConfig;
use tensor_tape::unlimited_ocr::moe::can_order;
use tensor_tape::unlimited_ocr::text as ocr;
use tensor_tape::whisper::config::Config as WhisperConfig;
use tensor_tape::whisper::model::Whisper;

// ---- arrays ----

#[derive(Clone, Debug)]
struct Array {
    dims: Vec<usize>,
    data: Vec<f64>,
}

fn dims_of(s: Shape) -> Vec<usize> {
    (0..s.rank).map(|i| s.get(i)).collect()
}

impl Array {
    fn new(dims: Vec<usize>, data: Vec<f64>) -> Array {
        assert_eq!(dims.iter().product::<usize>(), data.len());
        Array { dims, data }
    }

    fn zeros(dims: Vec<usize>) -> Array {
        let n = dims.iter().product();
        Array { dims, data: vec![0.0; n] }
    }

    fn strides(&self) -> Vec<usize> {
        let mut s = vec![1; self.dims.len()];
        for i in (0..self.dims.len().saturating_sub(1)).rev() {
            s[i] = s[i + 1] * self.dims[i + 1];
        }
        s
    }

    fn at(&self, index: &[usize]) -> f64 {
        let s = self.strides();
        self.data[index.iter().zip(&s).map(|(i, s)| i * s).sum::<usize>()]
    }

    /// An array of the given extents, each element from its index.
    fn build(dims: Vec<usize>, f: impl Fn(&[usize]) -> f64) -> Array {
        let n: usize = dims.iter().product();
        let mut index = vec![0; dims.len()];
        let mut data = Vec::with_capacity(n);
        for _ in 0..n {
            data.push(f(&index));
            for i in (0..dims.len()).rev() {
                index[i] += 1;
                if index[i] < dims[i] {
                    break;
                }
                index[i] = 0;
            }
        }
        Array { dims, data }
    }

    fn map(&self, f: impl Fn(f64) -> f64) -> Array {
        Array { dims: self.dims.clone(), data: self.data.iter().map(|x| f(*x)).collect() }
    }

    fn reshape(&self, dims: Vec<usize>) -> Array {
        Array::new(dims, self.data.clone())
    }

    fn permute(&self, axes: &[usize]) -> Array {
        let dims = axes.iter().map(|a| self.dims[*a]).collect();
        Array::build(dims, |i| {
            let mut from = vec![0; axes.len()];
            for (k, a) in axes.iter().enumerate() {
                from[*a] = i[k];
            }
            self.at(&from)
        })
    }

    fn narrow(&self, dim: usize, start: usize, len: usize) -> Array {
        assert!(start + len <= self.dims[dim]);
        let mut dims = self.dims.clone();
        dims[dim] = len;
        Array::build(dims, |i| {
            let mut from = i.to_vec();
            from[dim] += start;
            self.at(&from)
        })
    }

    fn drop_axis(&self, dim: usize, index: usize) -> Array {
        let mut dims = self.dims.clone();
        dims.remove(dim);
        self.narrow(dim, index, 1).reshape(dims)
    }

    fn expand(&self, dims: Vec<usize>) -> Array {
        let lead = dims.len() - self.dims.len();
        Array::build(dims, |i| {
            let from: Vec<usize> = (0..self.dims.len())
                .map(|k| if self.dims[k] == 1 { 0 } else { i[k + lead] })
                .collect();
            self.at(&from)
        })
    }

    fn zip(&self, other: &Array, f: impl Fn(f64, f64) -> f64) -> Array {
        assert_eq!(self.dims, other.dims);
        let data = self.data.iter().zip(&other.data).map(|(a, b)| f(*a, *b)).collect();
        Array { dims: self.dims.clone(), data }
    }

    fn broadcast(&self, other: &Array, f: impl Fn(f64, f64) -> f64) -> Array {
        let n = self.dims.len().max(other.dims.len());
        let dim = |a: &Array, i: usize| {
            let lead = n - a.dims.len();
            if i < lead { 1 } else { a.dims[i - lead] }
        };
        let dims: Vec<usize> = (0..n)
            .map(|i| {
                let (a, b) = (dim(self, i), dim(other, i));
                assert!(a == b || a == 1 || b == 1);
                a.max(b)
            })
            .collect();
        self.expand(dims.clone()).zip(&other.expand(dims), f)
    }

    fn cat(&self, other: &Array, axis: usize) -> Array {
        let mut dims = self.dims.clone();
        dims[axis] += other.dims[axis];
        let cut = self.dims[axis];
        Array::build(dims, |i| {
            if i[axis] < cut {
                self.at(i)
            } else {
                let mut from = i.to_vec();
                from[axis] -= cut;
                other.at(&from)
            }
        })
    }

    fn matmul(&self, other: &Array) -> Array {
        let n = self.dims.len();
        assert_eq!(n, other.dims.len());
        assert_eq!(self.dims[..n - 2], other.dims[..n - 2]);
        assert_eq!(self.dims[n - 1], other.dims[n - 2]);
        let (rows, inner, cols) = (self.dims[n - 2], self.dims[n - 1], other.dims[n - 1]);
        let batch: usize = self.dims[..n - 2].iter().product();
        let mut data = vec![0.0; batch * rows * cols];
        for b in 0..batch {
            for r in 0..rows {
                for c in 0..cols {
                    let mut sum = 0.0;
                    for k in 0..inner {
                        sum += self.data[(b * rows + r) * inner + k]
                            * other.data[(b * inner + k) * cols + c];
                    }
                    data[(b * rows + r) * cols + c] = sum;
                }
            }
        }
        let mut dims = self.dims.clone();
        dims[n - 1] = cols;
        Array { dims, data }
    }

    fn linear(&self, w: &Array) -> Array {
        let inner = *self.dims.last().unwrap();
        assert_eq!(inner, w.dims[1]);
        let rows = self.data.len() / inner.max(1);
        let flat = self.reshape(vec![rows, inner]);
        let mut dims = self.dims.clone();
        *dims.last_mut().unwrap() = w.dims[0];
        flat.matmul(&w.permute(&[1, 0])).reshape(dims)
    }

    fn over_last(&self, f: impl Fn(&[f64]) -> Vec<f64>) -> Array {
        let n = *self.dims.last().unwrap();
        let data = self.data.chunks(n).flat_map(|row| f(row)).collect();
        Array::new(self.dims.clone(), data)
    }

    fn reduce(&self, axis: usize, keep: bool, scale: f64) -> Array {
        let mut dims = self.dims.clone();
        let n = dims[axis];
        dims[axis] = 1;
        let r = Array::build(dims.clone(), |i| {
            let mut from = i.to_vec();
            let mut sum = 0.0;
            for k in 0..n {
                from[axis] = k;
                sum += self.at(&from);
            }
            sum * scale
        });
        if keep {
            r
        } else {
            dims.remove(axis);
            r.reshape(dims)
        }
    }

    fn select_rows(&self, axis: usize, ids: &[usize]) -> Array {
        let mut dims = self.dims.clone();
        dims[axis] = ids.len();
        Array::build(dims, |i| {
            let mut from = i.to_vec();
            from[axis] = ids[i[axis]];
            self.at(&from)
        })
    }

    fn indices(&self) -> Vec<usize> {
        self.data.iter().map(|x| *x as usize).collect()
    }
}

// ---- scalar functions ----

fn scalar(s: Scalar) -> f64 {
    match s {
        Scalar::F64(bits) => f64::from_bits(bits),
        Scalar::F32(bits) => f64::from_bits(bits) as f32 as f64,
        Scalar::Int(n) => n as f64,
        Scalar::Ratio { num, den } => num as f64 / den as f64,
        Scalar::Sqrt(n) => (n as f64).sqrt(),
        Scalar::RecipSqrt(n) => 1.0 / (n as f64).sqrt(),
        Scalar::PowNegHalf(n) => (n as f64).powf(-0.5),
        Scalar::PowNegQuarter(n) => (n as f64).powf(-0.25),
    }
}

fn silu(x: f64) -> f64 {
    x / (1.0 + (-x).exp())
}

fn gelu(x: f64) -> f64 {
    0.5 * x * (1.0 + ((2.0 / std::f64::consts::PI).sqrt() * (x + 0.044715 * x * x * x)).tanh())
}

fn softmax(row: &[f64]) -> Vec<f64> {
    let top = row.iter().cloned().fold(f64::NEG_INFINITY, f64::max);
    let e: Vec<f64> = row.iter().map(|x| (x - top).exp()).collect();
    let sum: f64 = e.iter().sum();
    e.iter().map(|x| x / sum).collect()
}

// ---- the machine ----

/// Weights, buffers and inputs, and the values of the running program.
struct Machine {
    weights: Vec<Array>,
    inputs: Vec<Array>,
    bufs: HashMap<usize, Array>,
    grown: HashSet<usize>,
    regs: Vec<Array>,
}

impl Machine {
    fn new(requests: &[Request]) -> Machine {
        let mut weights: Vec<Array> = Vec::new();
        for r in requests {
            let w = make_weight(r, &weights);
            weights.push(w);
        }
        Machine {
            weights,
            inputs: Vec::new(),
            bufs: HashMap::new(),
            grown: HashSet::new(),
            regs: Vec::new(),
        }
    }

    /// Carries out what was recorded since the last call.
    fn catch_up(&mut self, t: &Tape) {
        let program = t.program();
        while self.regs.len() < program.len() {
            let step = &program[self.regs.len()];
            let value = self.step(step);
            self.regs.push(value);
        }
    }

    fn value(&mut self, t: &Tape, x: Tensor) -> Array {
        self.catch_up(t);
        let v = self.regs[x.reg].clone();
        assert_eq!(v.dims, dims_of(x.shape), "recorded shape");
        v
    }

    /// Ends the program and starts the next.
    fn finish(&mut self, t: &mut Tape) {
        self.catch_up(t);
        t.finish();
        self.regs.clear();
    }

    /// Token numbers as an input of the program.
    fn tokens(&mut self, t: &mut Tape, ids: &[u32]) -> Tensor {
        let slot = self.inputs.len();
        let data = ids.iter().map(|x| *x as f64).collect();
        self.inputs.push(Array::new(vec![1, ids.len()], data));
        t.leaf(Op::Input { slot, shape: d2(1, ids.len()), dtype: DType::U32 })
    }

    fn rows(&mut self, t: &Tape, x: Tensor) -> Vec<Vec<u32>> {
        let v = self.value(t, x);
        let n = *v.dims.last().unwrap();
        v.data
            .chunks(n)
            .map(|row| row.iter().map(|x| (*x as f32).to_bits()).collect())
            .collect()
    }

    fn step(&mut self, i: &Instr) -> Array {
        match i {
            Instr::Leaf(op) => self.leaf(*op),
            Instr::Un(op, a) => self.un(*op, self.regs[*a].clone()),
            Instr::Bin(op, a, b) => self.bin(*op, &self.regs[*a], &self.regs[*b]),
            Instr::Tri(op, a, b, c) => {
                self.tri(*op, &self.regs[*a], &self.regs[*b], &self.regs[*c])
            }
            Instr::Ids(v) => {
                Array::new(vec![v.len()], v.iter().map(|x| *x as f64).collect())
            }
            Instr::Gates { rule, probs, plan } => self.gates(*rule, &self.regs[*probs], plan),
            Instr::Pick(a, at) => {
                let a = &self.regs[*a];
                Array::new(vec![at.len(), 1], at.iter().map(|p| a.at(&[p.0, p.1])).collect())
            }
            Instr::Mask { rows, cols, blocked } => Array::new(
                vec![*rows, *cols],
                blocked.iter().map(|b| if *b { f64::NEG_INFINITY } else { 0.0 }).collect(),
            ),
            Instr::Read(buf) => self.bufs[&buf.id].clone(),
            Instr::Fill(buf, op) => {
                let v = self.leaf(*op);
                self.grown.remove(&buf.id);
                self.bufs.insert(buf.id, v);
                nothing()
            }
            Instr::Derive(buf, op, src) => {
                let v = self.derived(*op, dims_of(buf.shape), self.bufs[&src.id].data[0]);
                self.bufs.insert(buf.id, v);
                nothing()
            }
            Instr::Store(buf, a) => {
                let v = self.regs[*a].clone();
                let v = v.reshape(dims_of(buf.shape));
                self.bufs.insert(buf.id, v);
                nothing()
            }
            Instr::Update(buf, op, a) => {
                let src = self.regs[*a].clone();
                match op {
                    Op::KvRows { pos, .. } => self.write_rows(buf.id, &src, *pos),
                    Op::CacheAppend { .. } => {
                        let v = if self.grown.contains(&buf.id) {
                            self.bufs[&buf.id].cat(&src, 2)
                        } else {
                            src
                        };
                        self.grown.insert(buf.id);
                        self.bufs.insert(buf.id, v);
                    }
                    _ => panic!("{:?}", op),
                }
                nothing()
            }
            Instr::UpdateAt(buf, Op::KvRowsAt, a, at) => {
                let src = self.regs[*a].clone();
                let pos = self.bufs[&at.id].data[0] as usize;
                self.write_rows(buf.id, &src, pos);
                nothing()
            }
            Instr::UpdateAt(_, op, _, _) => panic!("{:?}", op),
            Instr::KvWrite { kbuf, vbuf, k, v, pos } => {
                let at = self.bufs[&pos.id].data[0] as usize;
                let (k, v) = (self.regs[*k].clone(), self.regs[*v].clone());
                self.write_rows(kbuf.id, &k, at);
                self.write_rows(vbuf.id, &v, at);
                nothing()
            }
            Instr::Scan { q, k, v, beta, decay, state } => {
                let s = self.bufs[&state.id].clone();
                let (out, s) = delta_rule(
                    &self.regs[*q],
                    &self.regs[*k],
                    &self.regs[*v],
                    &self.regs[*beta],
                    &self.regs[*decay],
                    s,
                );
                self.bufs.insert(state.id, s);
                out
            }
        }
    }

    fn write_rows(&mut self, id: usize, src: &Array, pos: usize) {
        let buf = self.bufs.get_mut(&id).unwrap();
        let (heads, max, dim) = (buf.dims[0], buf.dims[1], buf.dims[2]);
        let len = src.data.len() / (heads * dim);
        assert!(pos + len <= max);
        for h in 0..heads {
            for r in 0..len {
                for d in 0..dim {
                    buf.data[(h * max + pos + r) * dim + d] = src.data[(h * len + r) * dim + d];
                }
            }
        }
    }

    fn leaf(&self, op: Op) -> Array {
        match op {
            Op::Param(w) => self.weights[w.id].clone(),
            Op::Input { slot, .. } => self.inputs[slot].clone(),
            Op::Zeros { shape, .. } => Array::zeros(dims_of(shape)),
            Op::U32(v) => Array::new(vec![1], vec![v as f64]),
            _ => panic!("{:?}", op),
        }
    }

    /// What a buffer gets from the position `at`.
    fn derived(&self, op: Op, dims: Vec<usize>, at: f64) -> Array {
        let pos = at as usize;
        let cell = |i: usize, j: usize, window: usize| {
            if j > i || window > 0 && j + window < i { f64::NEG_INFINITY } else { 0.0 }
        };
        match op {
            Op::MaskRow { window } => Array::build(dims, |i| cell(pos, i[0], window)),
            Op::MaskBlock { sliding } => {
                Array::build(dims, |i| cell(pos + i[0], i[1], sliding.unwrap_or(0)))
            }
            Op::AddU32(n) => Array::new(dims, vec![at + n as f64]),
            Op::Iota => Array::build(dims, |i| at + i[0] as f64),
            _ => panic!("{:?}", op),
        }
    }

    fn un(&self, op: Op, a: Array) -> Array {
        match op {
            Op::Contiguous | Op::ToDType(_) => a,
            Op::Reshape(s) => a.reshape(dims_of(s)),
            Op::Transpose(i, j) => {
                let mut axes: Vec<usize> = (0..a.dims.len()).collect();
                axes.swap(i, j);
                a.permute(&axes)
            }
            Op::Permute5 { p0, p1, p2, p3, p4 } => a.permute(&[p0, p1, p2, p3, p4]),
            Op::Narrow { dim, start, len } => a.narrow(dim, start, len),
            Op::Select { dim, index } => a.drop_axis(dim, index),
            Op::Unsqueeze(i) => {
                let mut dims = a.dims.clone();
                dims.insert(i, 1);
                a.reshape(dims)
            }
            Op::Expand(s) => a.expand(dims_of(s)),
            Op::RepeatKv(n) => {
                let ids: Vec<usize> = (0..a.dims[1] * n).map(|i| i / n).collect();
                a.select_rows(1, &ids)
            }
            Op::Half { index } => {
                let last = a.dims.len() - 1;
                let n = a.dims[last];
                let first = n / 2 + n % 2;
                if index == 0 {
                    a.narrow(last, 0, first)
                } else {
                    a.narrow(last, first, n / 2)
                }
            }
            Op::CacheView { len } => {
                let n = a.dims[2];
                a.narrow(2, n - len, len)
            }
            Op::BroadcastLeft(n) => {
                let mut dims = a.dims.clone();
                dims.insert(0, n);
                a.expand(dims)
            }
            Op::AddScalar(s) => a.map(|x| x + scalar(s)),
            Op::MulScalar(s) => a.map(|x| x * scalar(s)),
            Op::DivScalar(s) => a.map(|x| x / scalar(s)),
            Op::Sqr => a.map(|x| x * x),
            Op::Sqrt => a.map(f64::sqrt),
            Op::Exp => a.map(f64::exp),
            Op::Log => a.map(f64::ln),
            Op::Tanh => a.map(f64::tanh),
            Op::Silu => a.map(silu),
            Op::Gelu => a.map(gelu),
            Op::Sigmoid => a.map(|x| 1.0 / (1.0 + (-x).exp())),
            Op::Act(f) => match f {
                Activation::Silu => a.map(silu),
                Activation::Gelu | Activation::GeluTanh => a.map(gelu),
                Activation::Relu => a.map(|x| x.max(0.0)),
            },
            Op::SoftmaxLast => a.over_last(softmax),
            Op::SumKeep(i) => a.reduce(i, true, 1.0),
            Op::MeanKeep(i) => {
                let n = a.dims[i] as f64;
                a.reduce(i, true, 1.0 / n)
            }
            Op::Sum(i) => a.reduce(i, false, 1.0),
            Op::ArgSortDescending => a.over_last(|row| {
                let mut ids: Vec<usize> = (0..row.len()).collect();
                ids.sort_by(|i, j| row[*j].partial_cmp(&row[*i]).unwrap());
                ids.iter().map(|i| *i as f64).collect()
            }),
            Op::Linear(w) | Op::QMatMul(w) => a.linear(&self.weights[w.id]),
            Op::LinearBias(w, b) => {
                a.linear(&self.weights[w.id]).broadcast(&self.weights[b.id], |x, y| x + y)
            }
            Op::Embedding(w) => {
                let table = &self.weights[w.id];
                let rows = table.select_rows(0, &a.indices());
                let mut dims = a.dims.clone();
                dims.push(table.dims[1]);
                rows.reshape(dims)
            }
            Op::LayerNorm(w, b, eps) => {
                let n = *a.dims.last().unwrap() as f64;
                let y = a.over_last(|row| {
                    let mean = row.iter().sum::<f64>() / n;
                    let var = row.iter().map(|x| (x - mean) * (x - mean)).sum::<f64>() / n;
                    row.iter().map(|x| (x - mean) / (var + scalar(eps)).sqrt()).collect()
                });
                y.broadcast(&self.weights[w.id], |x, y| x * y)
                    .broadcast(&self.weights[b.id], |x, y| x + y)
            }
            Op::RmsNorm(w, eps) => {
                let n = *a.dims.last().unwrap() as f64;
                let y = a.over_last(|row| {
                    let ms = row.iter().map(|x| x * x).sum::<f64>() / n;
                    row.iter().map(|x| x / (ms + scalar(eps)).sqrt()).collect()
                });
                y.broadcast(&self.weights[w.id], |x, y| x * y)
            }
            Op::Conv1d { weight, bias, padding, stride } => {
                let (w, b) = (&self.weights[weight.id], &self.weights[bias.id]);
                let k = w.dims[2];
                let n = (a.dims[2] + 2 * padding - k) / stride + 1;
                Array::build(vec![a.dims[0], w.dims[0], n], |i| {
                    let mut sum = b.data[i[1]];
                    for c in 0..a.dims[1] {
                        for j in 0..k {
                            let at = i[2] * stride + j;
                            if at >= padding && at - padding < a.dims[2] {
                                sum += w.at(&[i[1], c, j]) * a.at(&[i[0], c, at - padding]);
                            }
                        }
                    }
                    sum
                })
            }
            Op::FusedSwiglu(act) => {
                let last = a.dims.len() - 1;
                let n = a.dims[last] / 2;
                let (g, u) = (a.narrow(last, 0, n), a.narrow(last, n, n));
                let g = match act {
                    SwigluAct::Silu => g.map(silu),
                    SwigluAct::GeluTanh => g.map(gelu),
                };
                g.zip(&u, |x, y| x * y)
            }
            _ => panic!("{:?}", op),
        }
    }

    fn bin(&self, op: Op, a: &Array, b: &Array) -> Array {
        match op {
            Op::Add => a.zip(b, |x, y| x + y),
            Op::Mul => a.zip(b, |x, y| x * y),
            Op::BroadcastAdd => a.broadcast(b, |x, y| x + y),
            Op::BroadcastMul => a.broadcast(b, |x, y| x * y),
            Op::BroadcastDiv => a.broadcast(b, |x, y| x / y),
            Op::MatMul => a.matmul(b),
            Op::Cat(i) => a.cat(b, i),
            Op::IndexSelect(i) => a.select_rows(i, &b.indices()),
            Op::Gather(i) => Array::build(b.dims.clone(), |at| {
                let mut from = at.to_vec();
                from[i] = b.at(at) as usize;
                a.at(&from)
            }),
            Op::IndexedMoe(w) => {
                let w = &self.weights[w.id];
                let inner = w.dims[2];
                Array::build(vec![b.dims[0], b.dims[1], w.dims[1]], |i| {
                    let e = b.at(&[i[0], i[1]]) as usize;
                    let row = if a.dims[1] == 1 { 0 } else { i[1] };
                    (0..inner).map(|k| w.at(&[e, i[2], k]) * a.at(&[i[0], row, k])).sum()
                })
            }
            Op::ScaleBy => {
                assert_eq!(b.data.len(), 1);
                a.map(|x| x * b.data[0])
            }
            _ => panic!("{:?}", op),
        }
    }

    fn tri(&self, op: Op, a: &Array, b: &Array, c: &Array) -> Array {
        match op {
            Op::Rope | Op::RopeInterleaved => {
                let half = a.dims[3] / 2;
                Array::build(a.dims.clone(), |i| {
                    let (k, first, other) = if op == Op::Rope {
                        let k = i[3] % half;
                        (k, i[3] < half, if i[3] < half { i[3] + half } else { i[3] - half })
                    } else {
                        let k = i[3] / 2;
                        (k, i[3] % 2 == 0, if i[3] % 2 == 0 { i[3] + 1 } else { i[3] - 1 })
                    };
                    let (cos, sin) = (b.at(&[i[2], k]), c.at(&[i[2], k]));
                    let x = a.at(i);
                    let y = a.at(&[i[0], i[1], i[2], other]);
                    if first { x * cos - y * sin } else { y * sin + x * cos }
                })
            }
            Op::IndexAdd(dim) => {
                assert_eq!(dim, 0);
                let width = a.dims[1];
                let mut out = a.clone();
                for (r, id) in b.indices().into_iter().enumerate() {
                    for k in 0..width {
                        out.data[id * width + k] += c.data[r * width + k];
                    }
                }
                out
            }
            Op::FusedAddRmsNorm { eps, plus_one } => {
                let sum = a.zip(b, |x, y| x + y);
                let n = *sum.dims.last().unwrap() as f64;
                let normed = sum.over_last(|row| {
                    let ms = row.iter().map(|x| x * x).sum::<f64>() / n;
                    row.iter().map(|x| x / (ms + scalar(eps)).sqrt()).collect()
                });
                let w = c.map(|x| if plus_one { x + 1.0 } else { x });
                let normed = normed.broadcast(&w, |x, y| x * y);
                let mut dims = sum.dims.clone();
                dims.insert(0, 1);
                sum.reshape(dims.clone()).cat(&normed.reshape(dims), 0)
            }
            _ => panic!("{:?}", op),
        }
    }

    fn gates(&self, rule: GateRule, probs: &Array, plan: &[Vec<usize>]) -> Array {
        let width = plan.first().map_or(0, |p| p.len());
        let mut data = Vec::new();
        for (t, chosen) in plan.iter().enumerate() {
            let raw: Vec<f64> = chosen.iter().map(|e| probs.at(&[t, *e])).collect();
            let sum: f64 = raw.iter().sum();
            for (x, e) in raw.iter().zip(chosen) {
                data.push(match rule {
                    GateRule::Raw => *x,
                    GateRule::Renormalized => x / sum,
                    GateRule::Scaled(w) => x / sum * self.weights[w.id].data[*e],
                });
            }
        }
        Array::new(vec![plan.len(), width], data)
    }
}

fn nothing() -> Array {
    Array::new(vec![0], vec![])
}

/// `S = decay * S + (v - decay * S k) beta k^T`, and `S q`, token by token.
fn delta_rule(
    q: &Array,
    k: &Array,
    v: &Array,
    beta: &Array,
    decay: &Array,
    mut s: Array,
) -> (Array, Array) {
    let (len, n_k, d_k) = (q.dims[0], q.dims[1], q.dims[2]);
    let (n_v, d_v) = (v.dims[1], v.dims[2]);
    let mut out = Array::zeros(vec![len, n_v, d_v]);
    for t in 0..len {
        for h in 0..n_v {
            let kh = h / (n_v / n_k);
            for i in 0..d_v {
                let base = (h * d_v + i) * d_k;
                let mut held = 0.0;
                for j in 0..d_k {
                    s.data[base + j] *= decay.at(&[t, h]);
                    held += s.data[base + j] * k.at(&[t, kh, j]);
                }
                let delta = (v.at(&[t, h, i]) - held) * beta.at(&[t, h]);
                let mut o = 0.0;
                for j in 0..d_k {
                    s.data[base + j] += delta * k.at(&[t, kh, j]);
                    o += s.data[base + j] * q.at(&[t, kh, j]);
                }
                out.data[(t * n_v + h) * d_v + i] = o;
            }
        }
    }
    (out, s)
}

// ---- weights ----

/// Small numbers that depend on the name and the place only.
fn stored(path: &str, dims: Vec<usize>) -> Array {
    let mut seed: u64 = 0xcbf2_9ce4_8422_2325;
    for b in path.bytes() {
        seed = (seed ^ b as u64).wrapping_mul(0x100_0000_01b3);
    }
    let n: usize = dims.iter().product();
    let data = (0..n)
        .map(|i| {
            let mut x = seed.wrapping_add((i as u64 + 1).wrapping_mul(0x9e37_79b9_7f4a_7c15));
            x ^= x >> 31;
            x = x.wrapping_mul(0xbf58_476d_1ce4_e5b9);
            x ^= x >> 29;
            ((x % 20001) as f64 / 10000.0 - 1.0) * 0.4
        })
        .collect();
    Array::new(dims, data)
}

fn make_weight(r: &Request, done: &[Array]) -> Array {
    let shape = dims_of(r.weight.shape);
    match r.recipe {
        Recipe::AsStored | Recipe::Converted => stored(&r.path, shape),
        Recipe::Transposed => {
            let w = stored(&r.path, dims_of(r.stored));
            let n = w.dims.len();
            let mut axes: Vec<usize> = (0..n).collect();
            axes.swap(n - 1, n - 2);
            w.permute(&axes)
        }
        Recipe::Squeezed => stored(&r.path, dims_of(r.stored)).reshape(shape),
        Recipe::PlusOne => stored(&r.path, shape).map(|x| x + 1.0),
        Recipe::NegExp => stored(&r.path, shape).map(|x| -x.exp()),
        Recipe::CopyOf(id) => done[id].clone(),
        Recipe::Slice { row, index, parts } => {
            let w = stored(&r.path, dims_of(r.stored)).drop_axis(0, row);
            let n = w.dims[0] / parts;
            w.narrow(0, index * n, n)
        }
        Recipe::RopeCos(table) | Recipe::RopeSin(table) => {
            assert!(matches!(
                table.precision,
                RopePrecision::TableType | RopePrecision::Single | RopePrecision::DoublePowers
            ));
            let theta = f64::from_bits(table.theta);
            Array::build(shape, |i| {
                let angle = if i[1] < table.angles {
                    i[0] as f64 / theta.powf(2.0 * i[1] as f64 / table.dim as f64)
                } else {
                    0.0
                };
                if matches!(r.recipe, Recipe::RopeCos(_)) { angle.cos() } else { angle.sin() }
            })
        }
        Recipe::Sinusoids => {
            let half = shape[1] / 2;
            let step = 10000f64.ln() / (half - 1) as f64;
            Array::build(shape, |i| {
                let angle = i[0] as f64 * (-step * (i[1] % half) as f64).exp();
                if i[1] < half { angle.sin() } else { angle.cos() }
            })
        }
        Recipe::SamEncoder(_) => Array::zeros(shape),
    }
}

fn assert_close(a: &Array, b: &Array) {
    assert_eq!(a.data.len(), b.data.len());
    for (x, y) in a.data.iter().zip(&b.data) {
        assert!(x.is_finite() && y.is_finite());
        assert!((x - y).abs() < 1e-6, "{} against {}", x, y);
    }
}

// ---- gemma ----

fn gemma_config() -> Gemma4TextConfig {
    Gemma4TextConfig {
        vocab_size: 64,
        hidden_size: 32,
        intermediate_size: 16,
        num_hidden_layers: 3,
        num_attention_heads: 4,
        num_key_value_heads: 2,
        num_global_key_value_heads: Some(1),
        head_dim: 8,
        global_head_dim: 16,
        hidden_activation: Activation::GeluTanh,
        rms_norm_eps: 1e-6f64.to_bits(),
        attention_bias: false,
        layer_types: vec![LayerType::Sliding, LayerType::Sliding, LayerType::Full],
        sliding_window: 4,
        effective_sliding_window: 4,
        max_position_embeddings: 64,
        rope_theta: 1000000f64.to_bits(),
        rope_local_base_freq: 10000f64.to_bits(),
        rope_angles: 2,
        tie_word_embeddings: true,
        final_logit_softcapping: Some(30f64.to_bits()),
        hidden_size_per_layer_input: 0,
        vocab_size_per_layer_input: 0,
        num_kv_shared_layers: 0,
        use_double_wide_mlp: false,
        attention_k_eq_v: true,
        enable_moe_block: true,
        num_experts: 4,
        top_k_experts: 2,
        moe_intermediate_size: 8,
        use_flash_attn: false,
    }
}

struct Gemma {
    t: Tape,
    m: gemma::TextModel,
    machine: Machine,
}

fn gemma_model(cfg: &Gemma4TextConfig, quant: Option<GgmlDType>, device: Device) -> Gemma {
    let mut l = Loader::new(DType::F32);
    let scalars = vec![None; cfg.num_hidden_layers];
    let root = VarPath::root();
    let m = gemma::TextModel::new_with_quant(&mut l, cfg, &root, quant, device, None, &scalars);
    Gemma { t: Tape::new(device), m, machine: Machine::new(&l.finish()) }
}

impl Gemma {
    fn settle(&mut self, first: gemma::Progress) -> Array {
        let mut p = first;
        loop {
            match p {
                gemma::Progress::Done { logits, .. } => {
                    let v = self.machine.value(&self.t, logits);
                    self.machine.finish(&mut self.t);
                    return v;
                }
                gemma::Progress::Route(pass) => {
                    let rows = self.machine.rows(&self.t, pass.half.probs.unwrap());
                    p = self.m.resume(&mut self.t, pass, &rows).unwrap();
                }
            }
        }
    }

    fn forward(&mut self, ids: &[u32], offset: usize) -> Array {
        let x = self.machine.tokens(&mut self.t, ids);
        let p = self.m.forward(&mut self.t, x, offset).unwrap();
        self.settle(p)
    }

    fn step(&mut self, id: u32) -> Array {
        let x = self.machine.tokens(&mut self.t, &[id]);
        let p = self.m.forward_static(&mut self.t, x).unwrap();
        self.settle(p)
    }
}

#[test]
fn moe_k_eq_v_forward_shapes() {
    let cfg = gemma_config();
    let mut g = gemma_model(&cfg, None, Device::Cpu);
    let logits = g.forward(&[1, 2, 3, 4, 5], 0);
    assert_eq!(logits.dims, &[1, 1, cfg.vocab_size]);
    let logits = g.forward(&[6], 5);
    assert_eq!(logits.dims, &[1, 1, cfg.vocab_size]);
    assert!(logits.data.iter().all(|x| x.is_finite()), "logits must be finite");
}

#[test]
fn moe_quantized_load_path() {
    let mut cfg = gemma_config();
    cfg.hidden_size = 64;
    cfg.moe_intermediate_size = 32;
    cfg.intermediate_size = 32;
    let mut g = gemma_model(&cfg, Some(GgmlDType::Q8_0), Device::Cpu);
    let logits = g.forward(&[1, 2, 3], 0);
    assert_eq!(logits.dims, &[1, 1, cfg.vocab_size]);
}

/// The way of each configuration through every kind of prefill and decoding.
fn gemma_ways_agree(cfg: &Gemma4TextConfig, quant: Option<GgmlDType>) {
    let prompt = [7u32, 3, 11, 5, 60];
    let more = [9u32, 33, 2];

    let mut eager = gemma_model(cfg, quant, Device::Cuda);
    let mut want = vec![eager.forward(&prompt, 0)];
    for (i, id) in more.iter().enumerate() {
        want.push(eager.forward(&[*id], prompt.len() + i));
    }

    // one token at a time, with a growing cache
    let mut slow = gemma_model(cfg, quant, Device::Cuda);
    let mut last = None;
    for (i, id) in prompt.iter().enumerate() {
        last = Some(slow.forward(&[*id], i));
    }
    assert_close(&want[0], &last.unwrap());

    // chunked prefill into static buffers, for several chunk lengths
    for chunk in [2, 3, 8] {
        let mut s = gemma_model(cfg, quant, Device::Cuda);
        s.m.enable_static_decode(16);
        assert!(s.m.static_enabled());
        let x = s.machine.tokens(&mut s.t, &prompt);
        let p = s.m.prefill_static_chunked(&mut s.t, x, chunk).unwrap();
        assert_close(&want[0], &s.settle(p));
        for (i, id) in more.iter().enumerate() {
            assert_close(&want[i + 1], &s.step(*id));
        }
        // from the start again, on the same buffers
        s.m.reset_static(&mut s.t).unwrap();
        let x = s.machine.tokens(&mut s.t, &prompt);
        let p = s.m.prefill_static_chunked(&mut s.t, x, chunk).unwrap();
        assert_close(&want[0], &s.settle(p));
    }

    // padded chunks that read only device state
    let mut s = gemma_model(cfg, quant, Device::Cuda);
    s.m.enable_static_decode(16);
    s.m.enable_chunk_graph(&mut s.t, 4).unwrap();
    let p = s.m.prefill_static_graph(&mut s.t, &prompt.to_vec()).unwrap();
    assert_close(&want[0], &s.settle(p));
    for (i, id) in more.iter().enumerate() {
        assert_close(&want[i + 1], &s.step(*id));
    }

    // token by token from an empty static context
    let mut s = gemma_model(cfg, quant, Device::Cuda);
    s.m.enable_static_decode(16);
    let mut last = None;
    for id in prompt {
        last = Some(s.step(id));
    }
    assert_close(&want[0], &last.unwrap());
}

#[test]
fn gemma_moe_ways_agree() {
    let mut cfg = gemma_config();
    cfg.sliding_window = 16;
    cfg.effective_sliding_window = 16;
    gemma_ways_agree(&cfg, None);
}

#[test]
fn gemma_dense_ways_agree() {
    let mut cfg = gemma_config();
    cfg.sliding_window = 16;
    cfg.effective_sliding_window = 16;
    cfg.enable_moe_block = false;
    cfg.attention_k_eq_v = false;
    cfg.hidden_size_per_layer_input = 4;
    cfg.vocab_size_per_layer_input = 64;
    cfg.num_hidden_layers = 5;
    cfg.layer_types = vec![
        LayerType::Sliding,
        LayerType::Full,
        LayerType::Sliding,
        LayerType::Sliding,
        LayerType::Full,
    ];
    cfg.num_kv_shared_layers = 2;
    cfg.use_double_wide_mlp = true;
    gemma_ways_agree(&cfg, None);
}

#[test]
fn gemma_fused_experts_agree_with_separate_ones() {
    let mut cfg = gemma_config();
    cfg.sliding_window = 16;
    cfg.effective_sliding_window = 16;
    cfg.hidden_size = 64;
    cfg.moe_intermediate_size = 32;
    cfg.intermediate_size = 32;
    gemma_ways_agree(&cfg, Some(GgmlDType::Q8_0));
    let prompt = [7u32, 3, 11, 5];
    let mut fused = gemma_model(&cfg, Some(GgmlDType::Q8_0), Device::Cuda);
    let mut apart = gemma_model(&cfg, Some(GgmlDType::Q8_0), Device::Cpu);
    let mut plain = gemma_model(&cfg, None, Device::Cpu);
    let want = fused.forward(&prompt, 0);
    assert_close(&want, &apart.forward(&prompt, 0));
    assert_close(&want, &plain.forward(&prompt, 0));
}

#[test]
fn gemma_window_is_the_same_in_static_steps() {
    // a window of four, and more tokens than that
    let mut cfg = gemma_config();
    cfg.effective_sliding_window = 5;
    let ids = [7u32, 3, 11, 5, 60, 9, 33, 2];
    let mut eager = gemma_model(&cfg, None, Device::Cuda);
    let mut s = gemma_model(&cfg, None, Device::Cuda);
    s.m.enable_static_decode(16);
    for (i, id) in ids.iter().enumerate() {
        assert_close(&eager.forward(&[*id], i), &s.step(*id));
    }
}

/// A model with static buffers and chunks of four tokens, whose window takes in
/// everything.
fn gemma_in_chunks(moe: bool) -> Gemma {
    let mut cfg = gemma_config();
    cfg.sliding_window = 16;
    cfg.effective_sliding_window = 16;
    cfg.enable_moe_block = moe;
    let mut g = gemma_model(&cfg, None, Device::Cuda);
    g.m.enable_static_decode(16);
    g.m.enable_chunk_graph(&mut g.t, 4).unwrap();
    g
}

#[test]
fn gemma_rewound_steps_are_those_of_a_new_model() {
    for moe in [false, true] {
        let mut new = gemma_in_chunks(moe);
        let mut used = gemma_in_chunks(moe);
        let p = used.m.prefill_static_graph(&mut used.t, &vec![1, 2, 3, 4, 5, 6]).unwrap();
        used.settle(p);
        used.step(8);
        used.m.reset_static(&mut used.t).unwrap();
        for id in [7u32, 3, 11, 5, 30, 2] {
            assert_eq!(new.step(id).data, used.step(id).data);
        }
    }
}

#[test]
fn gemma_padding_does_not_matter() {
    for moe in [false, true] {
        let mut zeros = gemma_in_chunks(moe);
        let p = zeros.m.prefill_static_graph(&mut zeros.t, &vec![7, 3, 11, 5, 60]).unwrap();
        let want = zeros.settle(p);
        let next = zeros.step(9);
        for fill in [[1u32, 2, 3], [60, 9, 9]] {
            let mut s = gemma_in_chunks(moe);
            s.m.feed_chunk_ids(&mut s.t, &vec![7, 3, 11, 5]).unwrap();
            let p = s.m.prefill_chunk_step(&mut s.t).unwrap();
            s.settle(p);
            s.m.feed_chunk_ids(&mut s.t, &vec![60, fill[0], fill[1], fill[2]]).unwrap();
            let mut p = s.m.prefill_chunk_step(&mut s.t).unwrap();
            let hidden = loop {
                match p {
                    gemma::Progress::Done { hidden, .. } => break hidden,
                    gemma::Progress::Route(pass) => {
                        let rows = s.machine.rows(&s.t, pass.half.probs.unwrap());
                        p = s.m.resume(&mut s.t, pass, &rows).unwrap();
                    }
                }
            };
            let first = s.t.un(Op::Narrow { dim: 1, start: 0, len: 1 }, hidden);
            let logits = s.m.logits_from_hidden(&mut s.t, first);
            assert_eq!(want.data, s.machine.value(&s.t, logits).data);
            // five tokens are real
            let pos = s.m.static_ctx.unwrap().pos;
            write_u32(&mut s.t, pos, 5).unwrap();
            assert_eq!(next.data, s.step(9).data);
        }
    }
}

#[test]
fn gemma_chunks_on_the_device_leave_the_rows_of_chunks_on_the_host() {
    let ids = [7u32, 3, 11, 5, 60, 9, 33, 2];
    let mut host = gemma_in_chunks(false);
    let x = host.machine.tokens(&mut host.t, &ids);
    let p = host.m.prefill_static_chunked(&mut host.t, x, 4).unwrap();
    host.settle(p);
    let mut dev = gemma_in_chunks(false);
    let p = dev.m.prefill_static_graph(&mut dev.t, &ids.to_vec()).unwrap();
    dev.settle(p);
    for (a, b) in host.m.kv.iter().zip(&dev.m.kv) {
        let (a, b) = (a.statics.unwrap(), b.statics.unwrap());
        for (x, y) in [(a.k.id, b.k.id), (a.v.id, b.v.id)] {
            assert_close(
                &host.machine.bufs[&x].narrow(1, 0, 8),
                &dev.machine.bufs[&y].narrow(1, 0, 8),
            );
        }
    }
}

#[test]
fn gemma_starts_over_after_clearing() {
    let cfg = gemma_config();
    let mut g = gemma_model(&cfg, None, Device::Cpu);
    let want = g.forward(&[1, 2, 3], 0);
    g.forward(&[4], 3);
    g.m.clear_kv_cache(&mut g.t);
    assert_close(&want, &g.forward(&[1, 2, 3], 0));
}

// ---- qwen ----

fn qwen_config(moe: bool) -> Qwen35TextConfig {
    let kinds = ["linear_attention", "linear_attention", "full_attention", "linear_attention"];
    Qwen35TextConfig {
        hidden_size: 16,
        num_attention_heads: 4,
        num_key_value_heads: 2,
        num_hidden_layers: 4,
        intermediate_size: if moe { None } else { Some(24) },
        vocab_size: 40,
        head_dim: Some(8),
        rope_theta: None,
        rope_parameters: None,
        rms_norm_eps: 1e-6f64.to_bits(),
        attn_output_gate: true,
        tie_word_embeddings: false,
        partial_rotary_factor: 0.5f64.to_bits(),
        layer_types: kinds.iter().map(|s| s.to_string()).collect(),
        linear_num_key_heads: 2,
        linear_num_value_heads: 4,
        linear_key_head_dim: 4,
        linear_value_head_dim: 6,
        linear_conv_kernel_dim: 4,
        num_experts: if moe { Some(4) } else { None },
        num_experts_per_tok: if moe { Some(2) } else { None },
        moe_intermediate_size: if moe { Some(8) } else { None },
        shared_expert_intermediate_size: if moe { Some(8) } else { None },
    }
}

struct Qwen {
    t: Tape,
    m: qwen::Model,
    machine: Machine,
}

fn qwen_model(cfg: &Qwen35TextConfig, quant: Option<GgmlDType>, source: ExpertSource) -> Qwen {
    let mut l = Loader::new(DType::F32);
    let sources = vec![source; cfg.num_hidden_layers];
    let root = VarPath::root();
    let rot = (cfg.head_dim() as f64 * f64::from_bits(cfg.rotary_factor())) as usize;
    let m = qwen::Model::new_with_quant(&mut l, cfg, &root, quant, rot, false, &sources).unwrap();
    Qwen { t: Tape::new(Device::Cuda), m, machine: Machine::new(&l.finish()) }
}

impl Qwen {
    fn settle(&mut self, first: qwen::Progress) -> Array {
        let mut p = first;
        loop {
            match p {
                qwen::Progress::Done { logits } => {
                    let v = self.machine.value(&self.t, logits);
                    self.machine.finish(&mut self.t);
                    return v;
                }
                qwen::Progress::Route(pass) => {
                    let rows = self.machine.rows(&self.t, pass.half.probs.unwrap());
                    p = self.m.resume(&mut self.t, pass, &rows).unwrap();
                }
            }
        }
    }

    fn forward(&mut self, ids: &[u32], start: usize) -> Array {
        let x = self.machine.tokens(&mut self.t, ids);
        let p = self.m.forward(&mut self.t, x, start).unwrap();
        self.settle(p)
    }

    fn step(&mut self, id: u32) -> Array {
        let x = self.machine.tokens(&mut self.t, &[id]);
        let p = self.m.forward_static(&mut self.t, x).unwrap();
        self.settle(p)
    }
}

fn qwen_ways_agree(cfg: &Qwen35TextConfig) {
    let prompt = [7u32, 3, 11, 5, 30];
    let more = [9u32, 33, 2];
    let mut eager = qwen_model(cfg, None, ExpertSource::Separate);
    let mut want = vec![eager.forward(&prompt, 0)];
    assert_eq!(want[0].dims, &[1, 1, 40]);
    for (i, id) in more.iter().enumerate() {
        want.push(eager.forward(&[*id], prompt.len() + i));
    }
    assert_eq!(eager.m.pos, 8);

    // one token at a time
    let mut slow = qwen_model(cfg, None, ExpertSource::Separate);
    let mut last = None;
    for (i, id) in prompt.iter().enumerate() {
        last = Some(slow.forward(&[*id], i));
    }
    assert_close(&want[0], &last.unwrap());

    // the whole prompt, then static steps
    let mut s = qwen_model(cfg, None, ExpertSource::Separate);
    assert!(!s.m.static_enabled());
    s.m.enable_static_decode(&mut s.t, 16);
    s.forward(&prompt, 0);
    assert_eq!(s.m.migrate_prefill_to_static(&mut s.t), Ok(5));
    for (i, id) in more.iter().enumerate() {
        let got = s.step(*id);
        assert_eq!(got.dims, &[1, 40]);
        assert_close(&want[i + 1], &got);
    }
    assert_eq!(s.m.pos, 8);

    // static steps from nothing
    let mut s = qwen_model(cfg, None, ExpertSource::Separate);
    s.m.enable_static_decode(&mut s.t, 16);
    let mut last = None;
    for id in prompt {
        last = Some(s.step(id));
    }
    assert_close(&want[0], &last.unwrap());

    // rewound: the windows and states of the request before are gone
    s.m.reset_static(&mut s.t).unwrap();
    let mut last = None;
    for id in prompt {
        last = Some(s.step(id));
    }
    assert_close(&want[0], &last.unwrap());

    // a new sequence begins at position zero
    let mut again = qwen_model(cfg, None, ExpertSource::Separate);
    again.forward(&[1, 2, 3], 0);
    assert_close(&want[0], &again.forward(&prompt, 0));
}

#[test]
fn qwen_dense_ways_agree() {
    qwen_ways_agree(&qwen_config(false));
}

#[test]
fn qwen_moe_ways_agree() {
    qwen_ways_agree(&qwen_config(true));
}

#[test]
fn qwen_chunks_split_anywhere() {
    for moe in [false, true] {
        let cfg = qwen_config(moe);
        let ids = [7u32, 3, 11, 5, 30, 2];
        let mut whole = qwen_model(&cfg, None, ExpertSource::Separate);
        let want = whole.forward(&ids, 0);
        let next = whole.forward(&[9], 6);
        for cut in 1..ids.len() {
            let mut m = qwen_model(&cfg, None, ExpertSource::Separate);
            m.forward(&ids[..cut], 0);
            assert_close(&want, &m.forward(&ids[cut..], cut));
            assert_close(&next, &m.forward(&[9], 6));
        }
    }
}

#[test]
fn qwen_rewound_steps_are_those_of_a_new_model() {
    for moe in [false, true] {
        let cfg = qwen_config(moe);
        let mut new = qwen_model(&cfg, None, ExpertSource::Separate);
        new.m.enable_static_decode(&mut new.t, 16);
        let mut used = qwen_model(&cfg, None, ExpertSource::Separate);
        used.m.enable_static_decode(&mut used.t, 16);
        for id in [1u32, 2, 3, 4] {
            used.step(id);
        }
        used.m.reset_static(&mut used.t).unwrap();
        for id in [7u32, 3, 11, 5, 30, 2] {
            assert_eq!(new.step(id).data, used.step(id).data);
        }
    }
}

#[test]
fn qwen_eager_and_static_steps_share_state() {
    let cfg = qwen_config(false);
    let mut eager = qwen_model(&cfg, None, ExpertSource::Separate);
    eager.forward(&[7, 3, 11], 0);
    let a = eager.forward(&[5], 3);

    // only the recurrent layers share storage: leave attention out
    let mut only = qwen_config(false);
    only.layer_types = vec!["linear_attention".to_string(); 4];
    let mut want = qwen_model(&only, None, ExpertSource::Separate);
    want.forward(&[7, 3, 11], 0);
    let b1 = want.forward(&[5], 3);
    let b2 = want.forward(&[6], 4);
    let b3 = want.forward(&[8], 5);
    let mut mixed = qwen_model(&only, None, ExpertSource::Separate);
    mixed.m.enable_static_decode(&mut mixed.t, 16);
    mixed.forward(&[7, 3, 11], 0);
    mixed.m.migrate_prefill_to_static(&mut mixed.t).unwrap();
    assert_close(&b1, &mixed.step(5));
    assert_close(&b2, &mixed.forward(&[6], 4));
    assert_close(&b3, &mixed.step(8));
    assert_eq!(a.dims, &[1, 1, 40]);
}

#[test]
fn qwen_stacked_experts_are_the_same_slices() {
    let mut cfg = qwen_config(true);
    cfg.hidden_size = 32;
    cfg.moe_intermediate_size = Some(32);
    let prompt = [7u32, 3, 11];
    let packed = ExpertSource::Packed { parallel: false };
    let mut whole = qwen_model(&cfg, Some(GgmlDType::Q8_0), packed);
    let a = whole.forward(&prompt, 0);
    let mut threads =
        qwen_model(&cfg, Some(GgmlDType::Q8_0), ExpertSource::Packed { parallel: true });
    assert_close(&a, &threads.forward(&prompt, 0));
    let mut dense = qwen_model(&cfg, None, packed);
    assert_close(&a, &dense.forward(&prompt, 0));
}

// ---- unlimited ocr ----

fn ocr_config() -> UnlimitedOcrTextConfig {
    UnlimitedOcrTextConfig {
        hidden_size: 16,
        intermediate_size: 24,
        moe_intermediate_size: 8,
        num_hidden_layers: 3,
        num_attention_heads: 2,
        num_key_value_heads: 2,
        v_head_dim: 8,
        vocab_size: 40,
        n_routed_experts: 4,
        n_shared_experts: 2,
        num_experts_per_tok: 2,
        first_k_dense_replace: 1,
        sliding_window_size: None,
        rope_theta: tensor_tape::unlimited_ocr::config::default_rope_theta(),
        rms_norm_eps: tensor_tape::unlimited_ocr::config::default_eps(),
        max_position_embeddings: 64,
    }
}

struct Ocr {
    t: Tape,
    m: ocr::TextModel,
    machine: Machine,
}

fn ocr_model() -> Ocr {
    let mut l = Loader::new(DType::F32);
    let m = ocr::TextModel::new(&mut l, &ocr_config(), &VarPath::root());
    Ocr { t: Tape::new(Device::Cpu), m, machine: Machine::new(&l.finish()) }
}

impl Ocr {
    fn settle(&mut self, first: ocr::Progress) -> Array {
        let mut p = first;
        loop {
            match p {
                ocr::Progress::Done { logits } => {
                    let v = self.machine.value(&self.t, logits);
                    self.machine.finish(&mut self.t);
                    return v;
                }
                ocr::Progress::Route(pass) => {
                    let rows = self.machine.rows(&self.t, pass.half.scores.unwrap());
                    assert!(can_order(&rows));
                    p = self.m.resume(&mut self.t, pass, &rows).unwrap();
                }
            }
        }
    }

    fn forward(&mut self, ids: &[u32], pos: usize) -> Array {
        let x = self.machine.tokens(&mut self.t, ids);
        let p = self.m.forward(&mut self.t, x, pos).unwrap();
        self.settle(p)
    }
}

#[test]
fn ocr_prompt_at_once_or_token_by_token() {
    let ids = [7u32, 3, 11, 5, 30];
    let mut whole = ocr_model();
    let want = whole.forward(&ids, 0);
    assert_eq!(want.dims, &[1, 40]);
    let mut slow = ocr_model();
    let mut last = None;
    for (i, id) in ids.iter().enumerate() {
        last = Some(slow.forward(&[*id], i));
    }
    assert_close(&want, &last.unwrap());
    let mut halves = ocr_model();
    halves.forward(&ids[..2], 0);
    assert_close(&want, &halves.forward(&ids[2..], 2));
    // after clearing, the same again
    halves.m.clear_kv_cache();
    assert_close(&want, &halves.forward(&ids, 0));
}

#[test]
fn ocr_embeddings_can_be_handed_in() {
    let ids = [7u32, 3, 11];
    let mut a = ocr_model();
    let want = a.forward(&ids, 0);
    let mut b = ocr_model();
    let x = b.machine.tokens(&mut b.t, &ids);
    let xs = b.m.embed(&mut b.t, x);
    let p = b.m.forward_embeds(&mut b.t, xs, 0).unwrap();
    assert_close(&want, &b.settle(p));
}

// ---- whisper ----

fn whisper_config() -> WhisperConfig {
    WhisperConfig {
        num_mel_bins: 6,
        max_source_positions: 12,
        d_model: 8,
        encoder_attention_heads: 2,
        encoder_layers: 2,
        vocab_size: 20,
        max_target_positions: 10,
        decoder_attention_heads: 2,
        decoder_layers: 2,
    }
}

struct Speech {
    t: Tape,
    m: Whisper,
    machine: Machine,
}

fn whisper_model() -> Speech {
    let mut l = Loader::new(DType::F32);
    let m = Whisper::load(&mut l, &VarPath::root(), whisper_config());
    Speech { t: Tape::new(Device::Cuda), m, machine: Machine::new(&l.finish()) }
}

impl Speech {
    fn sound(&mut self, name: &str, frames: usize) -> Tensor {
        let slot = self.machine.inputs.len();
        self.machine.inputs.push(stored(name, vec![1, 6, frames]));
        self.t.leaf(Op::Input { slot, shape: d3(1, 6, frames), dtype: DType::F32 })
    }

    fn encode(&mut self, name: &str, frames: usize) -> Tensor {
        let x = self.sound(name, frames);
        self.m.encoder.forward(&mut self.t, x, true).unwrap()
    }

    fn decode(&mut self, ids: &[u32], xa: Tensor, flush: bool) -> Array {
        let x = self.machine.tokens(&mut self.t, ids);
        let y = self.m.decoder.forward(&mut self.t, x, xa, flush).unwrap();
        self.machine.value(&self.t, y)
    }
}

#[test]
fn whisper_static_steps_follow_the_whole_pass() {
    let ids = [3u32, 9, 1, 14];
    let mut a = whisper_model();
    let xa = a.encode("speech", 20);
    let whole = a.decode(&ids, xa, true);
    assert_eq!(whole.dims, &[1, 4, 8]);

    let mut s = whisper_model();
    s.m.decoder.enable_static_decode(&mut s.t, 10, 12);
    assert!(s.m.decoder.static_enabled());
    for round in 0..2 {
        // the second segment is shorter, on the same buffers
        let frames = if round == 0 { 20 } else { 14 };
        let xa = s.encode("speech", frames);
        s.m.decoder.prepare_cross_static(&mut s.t, xa).unwrap();
        s.m.decoder.reset_static(&mut s.t).unwrap();
        let mut want_of = whisper_model();
        let xb = want_of.encode("speech", frames);
        let want = want_of.decode(&ids, xb, true);
        for (i, id) in ids.iter().enumerate() {
            let x = s.machine.tokens(&mut s.t, &[*id]);
            let y = s.m.decoder.forward_static(&mut s.t, x).unwrap();
            let got = s.machine.value(&s.t, y);
            s.machine.finish(&mut s.t);
            assert_close(&want.narrow(1, i, 1), &got);
        }
    }
}

#[test]
fn whisper_segments_do_not_know_of_each_other() {
    let mut used = whisper_model();
    used.m.decoder.enable_static_decode(&mut used.t, 10, 12);
    let mut new = whisper_model();
    new.m.decoder.enable_static_decode(&mut new.t, 10, 12);
    let old = used.encode("other", 20);
    used.m.decoder.prepare_cross_static(&mut used.t, old).unwrap();
    used.m.decoder.reset_static(&mut used.t).unwrap();
    for id in [2u32, 5, 8, 3, 4] {
        let x = used.machine.tokens(&mut used.t, &[id]);
        let y = used.m.decoder.forward_static(&mut used.t, x).unwrap();
        used.machine.value(&used.t, y);
        used.machine.finish(&mut used.t);
    }
    for s in [&mut used, &mut new] {
        let xa = s.encode("speech", 14);
        s.m.decoder.prepare_cross_static(&mut s.t, xa).unwrap();
        s.m.decoder.reset_static(&mut s.t).unwrap();
    }
    for id in [3u32, 9, 1, 14] {
        let mut out = Vec::new();
        for s in [&mut used, &mut new] {
            let x = s.machine.tokens(&mut s.t, &[id]);
            let y = s.m.decoder.forward_static(&mut s.t, x).unwrap();
            out.push(s.machine.value(&s.t, y));
            s.machine.finish(&mut s.t);
        }
        assert_eq!(out[0].data, out[1].data);
    }
}

#[test]
fn whisper_keeps_the_encoder_output_until_flushed() {
    let ids = [3u32, 9];
    let mut a = whisper_model();
    let one = a.encode("one", 20);
    let other = a.encode("other", 20);
    let first = a.decode(&ids, one, true);
    // not flushed: the first output still speaks
    let kept = a.decode(&ids, other, false);
    assert_close(&first, &kept);
    let flushed = a.decode(&ids, other, true);
    assert!(first.data.iter().zip(&flushed.data).any(|(x, y)| (x - y).abs() > 1e-5));
    let mut fresh = whisper_model();
    let alone = fresh.encode("other", 20);
    assert_close(&flushed, &fresh.decode(&ids, alone, true));
    // a reset does the same as a flush
    a.m.reset_kv_cache();
    assert_close(&first, &a.decode(&ids, one, false));
}

#[test]
fn whisper_logits_use_the_token_table() {
    let mut a = whisper_model();
    let xa = a.encode("one", 20);
    let x = a.machine.tokens(&mut a.t, &[3, 9]);
    let y = a.m.decoder.forward(&mut a.t, x, xa, true).unwrap();
    let logits = a.m.decoder.final_linear(&mut a.t, y).unwrap();
    let (h, l) = (a.machine.value(&a.t, y), a.machine.value(&a.t, logits));
    assert_eq!(l.dims, &[1, 2, 20]);
    let table = &a.machine.weights[a.m.decoder.token_embedding.id];
    let want: f64 = (0..8).map(|k| h.at(&[0, 1, k]) * table.at(&[5, k])).sum();
    assert!((l.at(&[0, 1, 5]) - want).abs() < 1e-9);
}

// ---- configurations ----

#[test]
fn explicit_nulls_parse_as_defaults() {
    let text = r#"{
      "hidden_size": 32, "intermediate_size": 16, "num_hidden_layers": 1,
      "layer_types": ["sliding_attention"], "sliding_window": 4,
      "num_experts": null, "top_k_experts": null, "enable_moe_block": null,
      "attention_k_eq_v": null, "moe_intermediate_size": null,
      "num_global_key_value_heads": null, "use_bidirectional_attention": null
    }"#;
    let raw: serde_json::Value = serde_json::from_str(text).expect("null-bearing config parses");
    let number = |name: &str| raw[name].as_u64().map(|n| n as usize);
    let cfg = gemma_config().switched(Switches {
        enable_moe_block: raw["enable_moe_block"].as_bool(),
        num_experts: number("num_experts"),
        top_k_experts: number("top_k_experts"),
        attention_k_eq_v: raw["attention_k_eq_v"].as_bool(),
    });
    assert!(!cfg.enable_moe_block);
    assert_eq!(cfg.num_experts, 0);
    assert_eq!(cfg.top_k_experts, 0);
    assert!(!cfg.attention_k_eq_v);
    // what is given is taken, and nothing else changes
    let cfg = gemma_config().switched(Switches {
        enable_moe_block: Some(true),
        num_experts: Some(8),
        top_k_experts: Some(3),
        attention_k_eq_v: Some(true),
    });
    assert!(cfg.enable_moe_block && cfg.attention_k_eq_v);
    assert_eq!((cfg.num_experts, cfg.top_k_experts, cfg.hidden_size), (8, 3, 32));
}
