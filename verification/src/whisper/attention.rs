use vstd::prelude::*;

use crate::dtype::{DType, Device};
use crate::error::Error;
use crate::fused::lemma_contiguous;
use crate::kv_cache::{CatCache, KvBufs};
use crate::loader::{pp, Loader, Proj, VarPath};
use crate::shape::{d3, d4, sat_product, saturating_product};
use crate::static_decode::{
    kv_write, kv_write_chunk, kv_write_effect, linked, rows_effect, Refused,
};
use crate::tape::{bin, held, opt_val, un, Buf, Bufs, Op, Scalar, Tape, Tensor, Term, Val};

verus! {

#[derive(Clone, Copy, PartialEq, Eq, Structural, Debug)]
pub struct MultiHeadAttention {
    pub query: Proj,
    pub key: Proj,
    pub value: Proj,
    pub out: Proj,
    pub n_head: usize,
    pub n_state: usize,
}

/// What an attention keeps between passes.
#[derive(Clone, Copy, PartialEq, Eq, Structural, Debug)]
pub struct MhaState {
    /// Keys and values of the encoder output, projected once.
    pub cache: CatCache,
    /// Self-attention keys and values `[n_head, max_seq, head_dim]` of the
    /// static path.
    pub static_kv: Option<KvBufs>,
    /// Address-stable keys and values of the encoder output, `[n_head,
    /// max_actx, head_dim]`.
    pub cross_static: Option<KvBufs>,
}

/// Output of an attention and what it leaves behind.
pub struct MhaOut {
    pub out: Val,
    pub bufs: Bufs,
    pub buffers: Seq<Buf>,
    pub state: MhaState,
}

/// Why attention stopped, and what it leaves behind.
pub struct MhaStop {
    pub error: Error,
    pub bufs: Bufs,
    pub buffers: Seq<Buf>,
    pub state: MhaState,
}

/// Keys and values, and what getting them leaves behind.
pub struct KvOut {
    pub k: Val,
    pub v: Val,
    pub bufs: Bufs,
    pub buffers: Seq<Buf>,
    pub state: MhaState,
}

impl MhaState {
    #[verifier::allow_in_spec]
    pub fn new() -> MhaState
        returns
            (MhaState { cache: CatCache::new(), static_kv: None, cross_static: None }),
    {
        MhaState { cache: CatCache::new(), static_kv: None, cross_static: None }
    }

    pub open spec fn wf(self) -> bool {
        self.cache.wf()
    }

    /// Forgets the keys and values of the encoder output.
    pub open spec fn forgotten(self) -> MhaState {
        MhaState { cache: CatCache { bufs: self.cache.bufs, filled: false }, ..self }
    }
}

impl MultiHeadAttention {
    pub open spec fn wf(self) -> bool {
        self.n_head > 0
    }

    pub open spec fn asked(self, l: Loader, n_state: usize, n_head: usize, vb: Seq<char>) -> bool {
        &&& self.query.asked(l, n_state, n_state, true, pp(vb, "q_proj"@), None)
        &&& self.value.asked(l, n_state, n_state, true, pp(vb, "v_proj"@), None)
        &&& self.key.asked(l, n_state, n_state, false, pp(vb, "k_proj"@), None)
        &&& self.out.asked(l, n_state, n_state, true, pp(vb, "out_proj"@), None)
        &&& self.n_head == n_head
        &&& self.n_state == n_state
    }

    pub fn load(l: &mut Loader, n_state: usize, n_head: usize, vb: &VarPath) -> (r:
        MultiHeadAttention)
        ensures
            final(l).grew(*old(l)),
            final(l).added(*old(l), 7),
            r.asked(*final(l), n_state, n_head, vb@),
    {
        let query = Proj::dense(l, n_state, n_state, true, &vb.pp("q_proj"));
        let value = Proj::dense(l, n_state, n_state, true, &vb.pp("v_proj"));
        let key = Proj::dense(l, n_state, n_state, false, &vb.pp("k_proj"));
        let out = Proj::dense(l, n_state, n_state, true, &vb.pp("out_proj"));
        MultiHeadAttention { query, key, value, out, n_head, n_state }
    }

    /// `[b, ctx, state]` as `[b, heads, ctx, state / heads]`.
    pub open spec fn headed(self, x: Val) -> Val {
        un(
            Op::Transpose(1, 2),
            un(
                Op::Reshape(
                    d4(
                        x.shape.d0,
                        x.shape.d1,
                        self.n_head,
                        (x.shape.d2 / self.n_head) as usize,
                    ),
                ),
                x,
            ),
        )
    }

    fn reshape_head(&self, t: &mut Tape, x: Tensor) -> (r: Result<Tensor, Error>)
        requires
            self.wf(),
            old(t).has(x),
        ensures
            final(t).computed(*old(t)),
            x.shape.rank != 3 ==> r == Err::<Tensor, Error>(
                Error::UnexpectedRank { expected: 3, got: x.shape.rank },
            ),
            x.shape.rank == 3 ==> r is Ok && final(t).has(r->Ok_0) && r->Ok_0@ == self.headed(x@),
    {
        let (n_batch, n_ctx, n_state) = x.dims3()?;
        let y = t.un(Op::Reshape(d4(n_batch, n_ctx, self.n_head, n_state / self.n_head)), x);
        Ok(t.un(Op::Transpose(1, 2), y))
    }

    /// Why three operands cannot be split into heads, if they cannot.
    pub open spec fn unsplit(q: Val, k: Val, v: Val) -> Option<Error> {
        if q.shape.rank != 3 {
            Some(Error::UnexpectedRank { expected: 3, got: q.shape.rank })
        } else if k.shape.rank != 3 {
            Some(Error::UnexpectedRank { expected: 3, got: k.shape.rank })
        } else if v.shape.rank != 3 {
            Some(Error::UnexpectedRank { expected: 3, got: v.shape.rank })
        } else {
            None
        }
    }

    /// `[b, heads, ctx, dim]` as `[b, ctx, heads * dim]`.
    pub open spec fn joined(wv: Val) -> Val {
        let y = un(Op::Transpose(1, 2), wv);
        un(
            Op::Reshape(d3(y.shape.d0, y.shape.d1, sat_product(y.shape.d2, y.shape.d3))),
            y,
        )
    }

    fn join(t: &mut Tape, wv: Tensor) -> (r: Tensor)
        requires
            old(t).has(wv),
        ensures
            final(t).computed(*old(t)),
            final(t).has(r),
            r@ == Self::joined(wv@),
    {
        let y = t.un(Op::Transpose(1, 2), wv);
        let wide: usize = saturating_product(y.shape.d2, y.shape.d3);
        t.un(Op::Reshape(d3(y.shape.d0, y.shape.d1, wide)), y)
    }

    /// Attention of queries over keys and values, each scaled by the fourth root.
    pub open spec fn attended(self, q: Val, k: Val, v: Val, mask: Option<Val>) -> Val {
        let n_ctx = q.shape.d1;
        let scale = Op::MulScalar(Scalar::PowNegQuarter((q.shape.d2 / self.n_head) as usize));
        let qk = bin(
            Op::MatMul,
            un(scale, self.headed(q)),
            un(scale, un(Op::Transpose(2, 3), self.headed(k))),
        );
        let qk = match mask {
            None => qk,
            Some(m) => bin(
                Op::BroadcastAdd,
                qk,
                un(
                    Op::Narrow { dim: 1, start: 0, len: n_ctx },
                    un(Op::Narrow { dim: 0, start: 0, len: n_ctx }, m),
                ),
            ),
        };
        Self::joined(bin(Op::MatMul, un(Op::SoftmaxLast, qk), self.headed(v)))
    }

    fn qkv_attention(&self, t: &mut Tape, q: Tensor, k: Tensor, v: Tensor, mask: Option<Tensor>) -> (r:
        Result<Tensor, Error>)
        requires
            self.wf(),
            old(t).has(q),
            old(t).has(k),
            old(t).has(v),
            old(t).has_opt(mask),
        ensures
            final(t).computed(*old(t)),
            match Self::unsplit(q@, k@, v@) {
                Some(e) => r == Err::<Tensor, Error>(e),
                None => r is Ok && final(t).has(r->Ok_0) && r->Ok_0@ == self.attended(
                    q@,
                    k@,
                    v@,
                    opt_val(mask),
                ),
            },
    {
        let (_b, n_ctx, n_state) = q.dims3()?;
        let scale = Op::MulScalar(Scalar::PowNegQuarter(n_state / self.n_head));
        let q = self.reshape_head(t, q)?;
        let q = t.un(scale, q);
        let k = self.reshape_head(t, k)?;
        let k = t.un(Op::Transpose(2, 3), k);
        let k = t.un(scale, k);
        let v = self.reshape_head(t, v)?;
        proof {
            lemma_contiguous(v@);
        }
        let v = t.un(Op::Contiguous, v);
        let qk = t.bin(Op::MatMul, q, k);
        let qk = match mask {
            None => qk,
            Some(m) => {
                let m = t.un(Op::Narrow { dim: 0, start: 0, len: n_ctx }, m);
                let m = t.un(Op::Narrow { dim: 1, start: 0, len: n_ctx }, m);
                t.bin(Op::BroadcastAdd, qk, m)
            },
        };
        let w = t.un(Op::SoftmaxLast, qk);
        let wv = t.bin(Op::MatMul, w, v);
        Ok(Self::join(t, wv))
    }

    /// Keys and values of a pass: of `x` itself, or of the encoder output `xa`,
    /// which are kept until they are flushed.
    pub open spec fn keys_values(
        self,
        x: Val,
        xa: Option<Val>,
        flush: bool,
        state: MhaState,
        buffers: Seq<Buf>,
        bufs: Bufs,
    ) -> KvOut {
        match xa {
            None => KvOut { k: self.key.apply(x), v: self.value.apply(x), bufs, buffers, state },
            Some(xa) => {
                let state = if flush { state.forgotten() } else { state };
                let c = state.cache;
                if c.filled {
                    KvOut {
                        k: held(bufs, c.bufs->0.k),
                        v: held(bufs, c.bufs->0.v),
                        bufs,
                        buffers,
                        state,
                    }
                } else {
                    let (k, v) = (self.key.apply(xa), self.value.apply(xa));
                    KvOut {
                        k,
                        v,
                        bufs: c.bufs_after(buffers, bufs, k, v),
                        buffers: c.buffers_after(buffers, bufs, k, v),
                        state: MhaState {
                            cache: CatCache {
                                bufs: Some(c.pair(buffers, bufs, k, v)),
                                filled: true,
                            },
                            ..state
                        },
                    }
                }
            },
        }
    }

    pub open spec fn pass(
        self,
        x: Val,
        xa: Option<Val>,
        mask: Option<Val>,
        flush: bool,
        state: MhaState,
        buffers: Seq<Buf>,
        bufs: Bufs,
    ) -> Result<MhaOut, MhaStop> {
        let q = self.query.apply(x);
        let kv = self.keys_values(x, xa, flush, state, buffers, bufs);
        match Self::unsplit(q, kv.k, kv.v) {
            Some(error) => Err(
                MhaStop { error, bufs: kv.bufs, buffers: kv.buffers, state: kv.state },
            ),
            None => Ok(
                MhaOut {
                    out: self.out.apply(self.attended(q, kv.k, kv.v, mask)),
                    bufs: kv.bufs,
                    buffers: kv.buffers,
                    state: kv.state,
                },
            ),
        }
    }

    /// `r` and the state after the call are what `want` says.
    pub open spec fn gave(
        r: Result<Tensor, Error>,
        t: Tape,
        state: MhaState,
        want: Result<MhaOut, MhaStop>,
    ) -> bool {
        match want {
            Err(x) => {
                &&& r == Err::<Tensor, Error>(x.error)
                &&& t.bufs() == x.bufs
                &&& t.buffers() == x.buffers
                &&& state == x.state
            },
            Ok(o) => {
                &&& r is Ok
                &&& t.has(r->Ok_0)
                &&& r->Ok_0@ == o.out
                &&& t.bufs() == o.bufs
                &&& t.buffers() == o.buffers
                &&& state == o.state
            },
        }
    }

    pub fn forward(
        &self,
        t: &mut Tape,
        state: &mut MhaState,
        x: Tensor,
        xa: Option<Tensor>,
        mask: Option<Tensor>,
        flush_cache: bool,
    ) -> (r: Result<Tensor, Error>)
        requires
            self.wf(),
            old(state).wf(),
            old(t).has(x),
            old(t).has_opt(xa),
            old(t).has_opt(mask),
        ensures
            final(t).grew(*old(t)),
            final(state).wf(),
            Self::gave(
                r,
                *final(t),
                *final(state),
                self.pass(
                    x@,
                    opt_val(xa),
                    opt_val(mask),
                    flush_cache,
                    *old(state),
                    old(t).buffers(),
                    old(t).bufs(),
                ),
            ),
    {
        let q = self.query.forward(t, x);
        let (k, v) = match xa {
            None => {
                let k = self.key.forward(t, x);
                let v = self.value.forward(t, x);
                (k, v)
            },
            Some(xa) => {
                if flush_cache {
                    state.cache.clear();
                }
                if state.cache.filled {
                    let c = state.cache.bufs.unwrap();
                    let k = t.read(c.k);
                    let v = t.read(c.v);
                    (k, v)
                } else {
                    let k = self.key.forward(t, xa);
                    let v = self.value.forward(t, xa);
                    state.cache.append(t, k, v)
                }
            },
        };
        let wv = self.qkv_attention(t, q, k, v, mask)?;
        Ok(self.out.forward(t, wv))
    }

    pub open spec fn head_dim_spec(self) -> usize {
        (self.n_state / self.n_head) as usize
    }

    pub fn head_dim(&self) -> (r: usize)
        requires
            self.wf(),
        ensures
            r == self.head_dim_spec(),
    {
        self.n_state / self.n_head
    }

    /// Self-attention buffers made, unless they are there.
    pub open spec fn enabled(
        self,
        state: MhaState,
        max_seq: usize,
        dtype: DType,
        buffers: Seq<Buf>,
        bufs: Bufs,
    ) -> (MhaState, Seq<Buf>, Bufs) {
        if state.static_kv is Some {
            (state, buffers, bufs)
        } else {
            let p = self.pair_made(buffers, max_seq, dtype);
            (
                MhaState { static_kv: Some(p), ..state },
                buffers.push(p.k).push(p.v),
                zeroed(bufs, p),
            )
        }
    }

    /// A pair of buffers `[n_head, len, head_dim]` that is made after `buffers`.
    pub open spec fn pair_made(self, buffers: Seq<Buf>, len: usize, dtype: DType) -> KvBufs {
        let shape = d3(self.n_head, len, self.head_dim_spec());
        KvBufs {
            k: Buf { id: buffers.len() as usize, shape, dtype },
            v: Buf { id: (buffers.len() + 1) as usize, shape, dtype },
        }
    }

    pub fn enable_static_self(&self, t: &mut Tape, state: &mut MhaState, max_seq: usize, dtype: DType)
        requires
            self.wf(),
            old(state).wf(),
        ensures
            final(state).wf(),
            final(t).grew(*old(t)),
            (*final(state), final(t).buffers(), final(t).bufs()) == self.enabled(
                *old(state),
                max_seq,
                dtype,
                old(t).buffers(),
                old(t).bufs(),
            ),
    {
        if state.static_kv.is_none() {
            let shape = d3(self.n_head, max_seq, self.head_dim());
            let k = t.allocate(shape, dtype);
            let v = t.allocate(shape, dtype);
            state.static_kv = Some(KvBufs { k, v });
        }
    }

    /// The buffers of the encoder output's keys and values, made if they are
    /// not there.
    pub open spec fn cross_made(
        self,
        state: MhaState,
        max_actx: usize,
        dtype: DType,
        buffers: Seq<Buf>,
        bufs: Bufs,
    ) -> (KvBufs, Seq<Buf>, Bufs) {
        match state.cross_static {
            Some(p) => (p, buffers, bufs),
            None => {
                let p = self.pair_made(buffers, max_actx, dtype);
                (p, buffers.push(p.k).push(p.v), zeroed(bufs, p))
            },
        }
    }

    /// Keys and values of `xa` in the address-stable buffers, and their number.
    pub open spec fn crossed(
        self,
        device: Device,
        xa: Val,
        max_actx: usize,
        state: MhaState,
        buffers: Seq<Buf>,
        bufs: Bufs,
    ) -> Result<(usize, MhaState, Seq<Buf>, Bufs), MhaStop> {
        let (k, v) = (self.key.apply(xa), self.value.apply(xa));
        if k.shape.rank != 3 {
            let error = Error::UnexpectedRank { expected: 3, got: k.shape.rank };
            Err(MhaStop { error, bufs, buffers, state })
        } else if v.shape.rank != 3 {
            let error = Error::UnexpectedRank { expected: 3, got: v.shape.rank };
            Err(MhaStop { error, bufs, buffers, state })
        } else {
            let (k, v) = (self.headed(k), self.headed(v));
            let n = k.shape.d2;
            if n > max_actx {
                let error = Error::ExceedsCross { len: n, capacity: max_actx };
                Err(MhaStop { error, bufs, buffers, state })
            } else {
                let (p, buffers, bufs) = self.cross_made(state, max_actx, k.dtype, buffers, bufs);
                let rows = Op::Reshape(d3(self.n_head, n, self.head_dim_spec()));
                let after = MhaState { cross_static: Some(p), ..state };
                if k.shape.d0 != 1 {
                    Err(MhaStop { error: Error::ShapeMismatch, bufs, buffers, state: after })
                } else {
                    match rows_effect(device, bufs, p.k, un(rows, k), 0) {
                        Err(error) => Err(MhaStop { error, bufs, buffers, state: after }),
                        Ok(b) => match rows_effect(device, b, p.v, un(rows, v), 0) {
                            Err(error) => Err(MhaStop { error, bufs: b, buffers, state: after }),
                            Ok(b) => Ok((n, after, buffers, b)),
                        },
                    }
                }
            }
        }
    }

    /// Projects the encoder output into address-stable buffers of fixed
    /// capacity, one segment at a time. A segment may be shorter; the rows beyond it are masked when
    /// they are attended to.
    pub fn set_cross_static(&self, t: &mut Tape, state: &mut MhaState, xa: Tensor, max_actx: usize) -> (r:
        Result<usize, Error>)
        requires
            self.wf(),
            old(state).wf(),
            old(t).has(xa),
        ensures
            final(t).grew(*old(t)),
            final(state).wf(),
            match self.crossed(
                old(t).on(),
                xa@,
                max_actx,
                *old(state),
                old(t).buffers(),
                old(t).bufs(),
            ) {
                Err(x) => {
                    &&& r == Err::<usize, Error>(x.error)
                    &&& *final(state) == x.state
                    &&& final(t).buffers() == x.buffers
                    &&& final(t).bufs() == x.bufs
                },
                Ok((n, s, u, b)) => {
                    &&& r == Ok::<usize, Error>(n)
                    &&& *final(state) == s
                    &&& final(t).buffers() == u
                    &&& final(t).bufs() == b
                },
            },
    {
        let hd: usize = self.head_dim();
        let k = self.key.forward(t, xa);
        let k = self.reshape_head(t, k)?;
        let v = self.value.forward(t, xa);
        let v = self.reshape_head(t, v)?;
        proof {
            lemma_contiguous(k@);
            lemma_contiguous(v@);
        }
        let k = t.un(Op::Contiguous, k);
        let v = t.un(Op::Contiguous, v);
        let n: usize = k.shape.d2;
        if n > max_actx {
            return Err(Error::ExceedsCross { len: n, capacity: max_actx });
        }
        let pair = match state.cross_static {
            Some(p) => p,
            None => {
                let shape = d3(self.n_head, max_actx, hd);
                let kb = t.allocate(shape, k.dtype);
                let vb = t.allocate(shape, k.dtype);
                let p = KvBufs { k: kb, v: vb };
                state.cross_static = Some(p);
                p
            },
        };
        if k.shape.d0 != 1 {
            return Err(Error::ShapeMismatch);
        }
        let rows = Op::Reshape(d3(self.n_head, n, hd));
        let kc = t.un(rows, k);
        let vc = t.un(rows, v);
        proof {
            lemma_contiguous(kc@);
            lemma_contiguous(vc@);
        }
        let kc = t.un(Op::Contiguous, kc);
        let vc = t.un(Op::Contiguous, vc);
        kv_write_chunk(t, pair.k, kc, 0)?;
        kv_write_chunk(t, pair.v, vc, 0)?;
        Ok(n)
    }

    /// Attention of one query over whole buffers. The scale is applied to the
    /// query and to the scores: keys are stored as they are.
    pub open spec fn step_attended(self, q: Val, k: Val, v: Val, mask: Val) -> Val {
        let hd = self.head_dim_spec();
        let scale = Op::MulScalar(Scalar::PowNegQuarter(hd));
        let q = un(scale, un(Op::Reshape(d4(1, self.n_head, 1, hd)), q));
        let kt = un(Op::Transpose(2, 3), un(Op::Unsqueeze(0), k));
        let qk = bin(
            Op::BroadcastAdd,
            un(scale, bin(Op::MatMul, q, kt)),
            un(Op::Reshape(d4(1, 1, 1, k.shape.d1)), mask),
        );
        self.out.apply(
            Self::joined(bin(Op::MatMul, un(Op::SoftmaxLast, qk), un(Op::Unsqueeze(0), v))),
        )
    }

    fn attend_step(&self, t: &mut Tape, q: Tensor, pair: KvBufs, mask: Buf) -> (r: Tensor)
        requires
            self.wf(),
            old(t).has(q),
        ensures
            final(t).computed(*old(t)),
            final(t).has(r),
            r@ == self.step_attended(
                q@,
                held(old(t).bufs(), pair.k),
                held(old(t).bufs(), pair.v),
                held(old(t).bufs(), mask),
            ),
    {
        let hd: usize = self.head_dim();
        let scale = Op::MulScalar(Scalar::PowNegQuarter(hd));
        let q = t.un(Op::Reshape(d4(1, self.n_head, 1, hd)), q);
        let q = t.un(scale, q);
        let k = t.read(pair.k);
        let k = t.un(Op::Unsqueeze(0), k);
        let k = t.un(Op::Transpose(2, 3), k);
        proof {
            lemma_contiguous(k@);
        }
        let k = t.un(Op::Contiguous, k);
        let qk = t.bin(Op::MatMul, q, k);
        let qk = t.un(scale, qk);
        let m = t.read(mask);
        let m = t.un(Op::Reshape(d4(1, 1, 1, pair.k.shape.d1)), m);
        let qk = t.bin(Op::BroadcastAdd, qk, m);
        let w = t.un(Op::SoftmaxLast, qk);
        let v = t.read(pair.v);
        let v = t.un(Op::Unsqueeze(0), v);
        proof {
            lemma_contiguous(v@);
        }
        let v = t.un(Op::Contiguous, v);
        let wv = t.bin(Op::MatMul, w, v);
        let wv = Self::join(t, wv);
        self.out.forward(t, wv)
    }

    /// One token at the position held in `pos`.
    pub open spec fn self_step(
        self,
        device: Device,
        x: Val,
        pos: Buf,
        mask: Buf,
        state: MhaState,
        bufs: Bufs,
    ) -> Result<(Val, Bufs), Refused> {
        match state.static_kv {
            None => Err(Refused { error: Error::StaticNotEnabled, bufs }),
            Some(p) => {
                let row = Op::Reshape(d3(self.n_head, 1, self.head_dim_spec()));
                let (k, v) = (un(row, self.key.apply(x)), un(row, self.value.apply(x)));
                match linked(bufs, kv_write_effect(device, bufs, p.k, p.v, k, v, pos)) {
                    Err(x) => Err(x),
                    Ok(b) => Ok(
                        (
                            self.step_attended(
                                self.query.apply(x),
                                held(b, p.k),
                                held(b, p.v),
                                held(b, mask),
                            ),
                            b,
                        ),
                    ),
                }
            },
        }
    }

    /// One-token self-attention over the static buffers at the position held on
    /// the device.
    pub fn forward_static_self(&self, t: &mut Tape, state: &MhaState, x: Tensor, pos: Buf, mask: Buf) -> (r:
        Result<Tensor, Error>)
        requires
            self.wf(),
            old(t).has(x),
        ensures
            final(t).wrote(*old(t)),
            match self.self_step(old(t).on(), x@, pos, mask, *state, old(t).bufs()) {
                Err(x) => r == Err::<Tensor, Error>(x.error) && final(t).bufs() == x.bufs,
                Ok((out, b)) => {
                    &&& r is Ok
                    &&& final(t).has(r->Ok_0)
                    &&& r->Ok_0@ == out
                    &&& final(t).bufs() == b
                },
            },
    {
        let hd: usize = self.head_dim();
        let pair = match state.static_kv {
            None => {
                return Err(Error::StaticNotEnabled);
            },
            Some(p) => p,
        };
        let q = self.query.forward(t, x);
        let k = self.key.forward(t, x);
        let v = self.value.forward(t, x);
        let row = Op::Reshape(d3(self.n_head, 1, hd));
        let k = t.un(row, k);
        let v = t.un(row, v);
        proof {
            lemma_contiguous(k@);
            lemma_contiguous(v@);
        }
        let k = t.un(Op::Contiguous, k);
        let v = t.un(Op::Contiguous, v);
        kv_write(t, pair.k, pair.v, k, v, pos)?;
        Ok(self.attend_step(t, q, pair, mask))
    }

    /// One token over the keys and values of the encoder output.
    pub open spec fn cross_step(self, x: Val, cross_mask: Buf, state: MhaState, bufs: Bufs) -> Result<
        Val,
        Error,
    > {
        match state.cross_static {
            None => Err(Error::CrossNotPrepared),
            Some(p) => Ok(
                self.step_attended(
                    self.query.apply(x),
                    held(bufs, p.k),
                    held(bufs, p.v),
                    held(bufs, cross_mask),
                ),
            ),
        }
    }

    /// One-token cross-attention over the buffers of fixed capacity, with a
    /// length mask.
    pub fn forward_static_cross(&self, t: &mut Tape, state: &MhaState, x: Tensor, cross_mask: Buf) -> (r:
        Result<Tensor, Error>)
        requires
            self.wf(),
            old(t).has(x),
        ensures
            final(t).computed(*old(t)),
            match self.cross_step(x@, cross_mask, *state, old(t).bufs()) {
                Err(e) => r == Err::<Tensor, Error>(e),
                Ok(out) => r is Ok && final(t).has(r->Ok_0) && r->Ok_0@ == out,
            },
    {
        let pair = match state.cross_static {
            None => {
                return Err(Error::CrossNotPrepared);
            },
            Some(p) => p,
        };
        let q = self.query.forward(t, x);
        Ok(self.attend_step(t, q, pair, cross_mask))
    }

    pub fn reset_kv_cache(state: &mut MhaState)
        ensures
            *final(state) == old(state).forgotten(),
            final(state).wf(),
    {
        state.cache.clear();
    }
}

/// Both buffers hold zeros.
pub open spec fn zeroed(bufs: Bufs, p: KvBufs) -> Bufs {
    bufs.insert(
        p.k.id as int,
        Term::Leaf(Op::Zeros { shape: p.k.shape, dtype: p.k.dtype }),
    ).insert(p.v.id as int, Term::Leaf(Op::Zeros { shape: p.v.shape, dtype: p.v.dtype }))
}

} // verus!
