//! Bookkeeping of growing key/value caches.
use vstd::prelude::*;

use crate::shape::{sat_sum, saturating_sum, Shape};
use crate::tape::{bin, bin_term, held, un, Buf, Bufs, Op, Tape, Tensor, Term, Val};

verus! {

/// The buffers of keys and values.
#[derive(Clone, Copy, PartialEq, Eq, Structural, Debug)]
pub struct KvBufs {
    pub k: Buf,
    pub v: Buf,
}

/// A cache of keys and values along axis 2 of `[batch, heads, seq, dim]`. It
/// keeps everything up to `max_seq`, or, when rotating, the last `max_seq`
/// positions.
#[derive(Clone, Copy, PartialEq, Eq, Structural, Debug)]
pub struct KvCache {
    pub max_seq: usize,
    pub rotating: bool,
    /// Positions appended since the last reset.
    pub len: usize,
    /// Made on the first append.
    pub bufs: Option<KvBufs>,
}

impl KvCache {
    #[verifier::allow_in_spec]
    pub fn new(max_seq: usize, rotating: bool) -> KvCache
        returns
            (KvCache { max_seq, rotating, len: 0, bufs: None }),
    {
        KvCache { max_seq, rotating, len: 0, bufs: None }
    }

    /// Positions that an append of `n` more hands out.
    pub open spec fn view_len(self, n: usize) -> usize {
        if !self.rotating {
            sat_sum(self.len, n)
        } else if n >= self.max_seq {
            n
        } else if sat_sum(self.len, n) <= self.max_seq {
            sat_sum(self.len, n)
        } else {
            self.max_seq
        }
    }

    pub fn next_view(&self, n: usize) -> (r: usize)
        ensures
            r == self.view_len(n),
    {
        let total: usize = saturating_sum(self.len, n);
        if !self.rotating {
            total
        } else if n >= self.max_seq {
            n
        } else if total <= self.max_seq {
            total
        } else {
            self.max_seq
        }
    }

    /// Shape of the buffers for keys of shape `k`.
    pub open spec fn buf_shape(self, k: Shape) -> Shape {
        k.set(2, self.max_seq)
    }

    /// The buffers once there are some; new ones follow those in `buffers`.
    pub open spec fn pair(self, buffers: Seq<Buf>, k: Val, v: Val) -> KvBufs {
        match self.bufs {
            Some(p) => p,
            None => KvBufs {
                k: Buf {
                    id: buffers.len() as usize,
                    shape: self.buf_shape(k.shape),
                    dtype: k.dtype,
                },
                v: Buf {
                    id: (buffers.len() + 1) as usize,
                    shape: self.buf_shape(v.shape),
                    dtype: v.dtype,
                },
            },
        }
    }

    pub open spec fn buffers_after(self, buffers: Seq<Buf>, k: Val, v: Val) -> Seq<Buf> {
        if self.bufs is Some {
            buffers
        } else {
            let KvBufs { k: kb, v: vb } = self.pair(buffers, k, v);
            buffers.push(kb).push(vb)
        }
    }

    /// Contents with the buffers there and nothing appended yet.
    pub open spec fn ready(self, buffers: Seq<Buf>, bufs: Bufs, k: Val, v: Val) -> Bufs {
        if self.bufs is Some {
            bufs
        } else {
            let KvBufs { k: kb, v: vb } = self.pair(buffers, k, v);
            bufs.insert(
                kb.id as int,
                Term::Leaf(Op::Zeros { shape: kb.shape, dtype: kb.dtype }),
            ).insert(vb.id as int, Term::Leaf(Op::Zeros { shape: vb.shape, dtype: vb.dtype }))
        }
    }

    pub open spec fn bufs_after(self, buffers: Seq<Buf>, bufs: Bufs, k: Val, v: Val) -> Bufs {
        let KvBufs { k: kb, v: vb } = self.pair(buffers, k, v);
        let op = Op::CacheAppend { max_seq: self.max_seq, rotating: self.rotating };
        let ready = self.ready(buffers, bufs, k, v);
        let with_k = ready.insert(kb.id as int, bin_term(op, ready[kb.id as int], k.term));
        with_k.insert(vb.id as int, bin_term(op, with_k[vb.id as int], v.term))
    }

    /// The keys and values that an append hands out.
    pub open spec fn views(self, buffers: Seq<Buf>, bufs: Bufs, k: Val, v: Val) -> (Val, Val) {
        let KvBufs { k: kb, v: vb } = self.pair(buffers, k, v);
        let after = self.bufs_after(buffers, bufs, k, v);
        let op = Op::CacheView { len: self.view_len(k.shape.d2) };
        (un(op, held(after, kb)), un(op, held(after, vb)))
    }

    pub open spec fn after(self, buffers: Seq<Buf>, k: Val, v: Val) -> KvCache {
        KvCache {
            max_seq: self.max_seq,
            rotating: self.rotating,
            len: sat_sum(self.len, k.shape.d2),
            bufs: Some(self.pair(buffers, k, v)),
        }
    }

    /// Appends `k` and `v` and hands out what attention reads.
    pub fn append(&mut self, t: &mut Tape, k: Tensor, v: Tensor) -> (r: (Tensor, Tensor))
        requires
            old(t).has(k),
            old(t).has(v),
        ensures
            final(t).grew(*old(t)),
            final(t).buffers() == old(self).buffers_after(old(t).buffers(), k@, v@),
            final(t).bufs() == old(self).bufs_after(old(t).buffers(), old(t).bufs(), k@, v@),
            final(t).has(r.0),
            final(t).has(r.1),
            (r.0@, r.1@) == old(self).views(old(t).buffers(), old(t).bufs(), k@, v@),
            *final(self) == old(self).after(old(t).buffers(), k@, v@),
    {
        let len: usize = self.next_view(k.shape.d2);
        let KvBufs { k: kb, v: vb } = match self.bufs {
            Some(p) => p,
            None => {
                let kb = t.allocate(k.shape.set(2, self.max_seq), k.dtype);
                let vb = t.allocate(v.shape.set(2, self.max_seq), v.dtype);
                KvBufs { k: kb, v: vb }
            },
        };
        let op = Op::CacheAppend { max_seq: self.max_seq, rotating: self.rotating };
        t.update(kb, op, k);
        t.update(vb, op, v);
        let k_all = t.read(kb);
        let k_all = t.un(Op::CacheView { len }, k_all);
        let v_all = t.read(vb);
        let v_all = t.un(Op::CacheView { len }, v_all);
        self.len = saturating_sum(self.len, k.shape.d2);
        self.bufs = Some(KvBufs { k: kb, v: vb });
        (k_all, v_all)
    }

    pub open spec fn bufs_cleared(self, bufs: Bufs) -> Bufs {
        match self.bufs {
            None => bufs,
            Some(KvBufs { k: kb, v: vb }) => bufs.insert(
                kb.id as int,
                Term::Leaf(Op::Zeros { shape: kb.shape, dtype: kb.dtype }),
            ).insert(vb.id as int, Term::Leaf(Op::Zeros { shape: vb.shape, dtype: vb.dtype })),
        }
    }

    /// Forgets everything that was appended.
    pub fn reset(&mut self, t: &mut Tape)
        ensures
            final(t).wrote(*old(t)),
            final(t).bufs() == old(self).bufs_cleared(old(t).bufs()),
            *final(self) == (KvCache { len: 0, ..*old(self) }),
    {
        match self.bufs {
            None => {},
            Some(KvBufs { k: kb, v: vb }) => {
                t.fill(kb, Op::Zeros { shape: kb.shape, dtype: kb.dtype });
                t.fill(vb, Op::Zeros { shape: vb.shape, dtype: vb.dtype });
            },
        }
        self.len = 0;
    }

    /// A rotating cache never hands out more than it keeps, except the whole of
    /// one append that is longer; a growing one hands out everything.
    pub proof fn law_view_len(self, n: usize)
        requires
            self.len + n <= usize::MAX,
        ensures
            !self.rotating ==> self.view_len(n) == self.len + n,
            self.rotating && n < self.max_seq ==> self.view_len(n) <= self.max_seq,
            self.view_len(n) >= n || self.rotating && self.max_seq < n,
            self.len == 0 ==> self.view_len(n) == n,
    {
    }
}

/// A cache that grows by concatenation along axis 2.
#[derive(Clone, Copy, PartialEq, Eq, Structural, Debug)]
pub struct CatCache {
    /// Made on the first append; the shapes are those of the contents.
    pub bufs: Option<KvBufs>,
    /// Something has been appended since the last clear.
    pub filled: bool,
}

impl CatCache {
    #[verifier::allow_in_spec]
    pub fn new() -> CatCache
        returns
            (CatCache { bufs: None, filled: false }),
    {
        CatCache { bufs: None, filled: false }
    }

    /// A cache that is filled has buffers.
    pub open spec fn wf(self) -> bool {
        self.filled ==> self.bufs is Some
    }

    /// Positions held.
    pub open spec fn len(self) -> usize {
        if self.filled { self.bufs->0.k.shape.d2 } else { 0 }
    }

    pub fn cached_len(&self) -> (n: usize)
        requires
            self.wf(),
        ensures
            n == self.len(),
    {
        if self.filled {
            match self.bufs {
                Some(p) => p.k.shape.d2,
                None => 0,
            }
        } else {
            0
        }
    }

    /// Everything held so far, followed by `x`.
    pub open spec fn joined(self, bufs: Bufs, buf: Buf, x: Val) -> Val {
        if self.filled {
            bin(Op::Cat(2), held(bufs, buf), x)
        } else {
            x
        }
    }

    /// Keys and values after an append.
    pub open spec fn views(self, bufs: Bufs, k: Val, v: Val) -> (Val, Val) {
        (self.joined(bufs, self.bufs->0.k, k), self.joined(bufs, self.bufs->0.v, v))
    }

    /// The buffers after an append, with their new shapes.
    pub open spec fn pair(self, buffers: Seq<Buf>, bufs: Bufs, k: Val, v: Val) -> KvBufs {
        let (ka, va) = self.views(bufs, k, v);
        match self.bufs {
            Some(p) => KvBufs {
                k: Buf { id: p.k.id, shape: ka.shape, dtype: ka.dtype },
                v: Buf { id: p.v.id, shape: va.shape, dtype: va.dtype },
            },
            None => KvBufs {
                k: Buf { id: buffers.len() as usize, shape: ka.shape, dtype: ka.dtype },
                v: Buf { id: (buffers.len() + 1) as usize, shape: va.shape, dtype: va.dtype },
            },
        }
    }

    pub open spec fn buffers_after(self, buffers: Seq<Buf>, bufs: Bufs, k: Val, v: Val) -> Seq<
        Buf,
    > {
        if self.bufs is Some {
            buffers
        } else {
            let p = self.pair(buffers, bufs, k, v);
            buffers.push(p.k).push(p.v)
        }
    }

    pub open spec fn bufs_after(self, buffers: Seq<Buf>, bufs: Bufs, k: Val, v: Val) -> Bufs {
        let p = self.pair(buffers, bufs, k, v);
        let (ka, va) = self.views(bufs, k, v);
        let ready = if self.bufs is Some {
            bufs
        } else {
            bufs.insert(
                p.k.id as int,
                Term::Leaf(Op::Zeros { shape: p.k.shape, dtype: p.k.dtype }),
            ).insert(p.v.id as int, Term::Leaf(Op::Zeros { shape: p.v.shape, dtype: p.v.dtype }))
        };
        ready.insert(p.k.id as int, ka.term).insert(p.v.id as int, va.term)
    }

    /// Appends `k` and `v` and hands out everything held.
    pub fn append(&mut self, t: &mut Tape, k: Tensor, v: Tensor) -> (r: (Tensor, Tensor))
        requires
            old(self).wf(),
            old(t).has(k),
            old(t).has(v),
        ensures
            final(self).wf(),
            final(t).grew(*old(t)),
            final(t).buffers() == old(self).buffers_after(
                old(t).buffers(),
                old(t).bufs(),
                k@,
                v@,
            ),
            final(t).bufs() == old(self).bufs_after(old(t).buffers(), old(t).bufs(), k@, v@),
            final(t).has(r.0),
            final(t).has(r.1),
            (r.0@, r.1@) == old(self).views(old(t).bufs(), k@, v@),
            *final(self) == (CatCache {
                bufs: Some(old(self).pair(old(t).buffers(), old(t).bufs(), k@, v@)),
                filled: true,
            }),
    {
        let (ka, va) = match self.bufs {
            Some(p) => if self.filled {
                let pk = t.read(p.k);
                let pv = t.read(p.v);
                let ka = t.bin(Op::Cat(2), pk, k);
                let va = t.bin(Op::Cat(2), pv, v);
                proof {
                    crate::fused::lemma_contiguous(ka@);
                    crate::fused::lemma_contiguous(va@);
                }
                let ka = t.un(Op::Contiguous, ka);
                let va = t.un(Op::Contiguous, va);
                (ka, va)
            } else {
                (k, v)
            },
            None => (k, v),
        };
        let pair = match self.bufs {
            Some(p) => KvBufs {
                k: Buf { id: p.k.id, shape: ka.shape, dtype: ka.dtype },
                v: Buf { id: p.v.id, shape: va.shape, dtype: va.dtype },
            },
            None => {
                let kb = t.allocate(ka.shape, ka.dtype);
                let vb = t.allocate(va.shape, va.dtype);
                KvBufs { k: kb, v: vb }
            },
        };
        t.store(pair.k, ka);
        t.store(pair.v, va);
        self.bufs = Some(pair);
        self.filled = true;
        (ka, va)
    }

    /// Forgets what was appended; the buffers stay for the next append.
    pub fn clear(&mut self)
        ensures
            *final(self) == (CatCache { bufs: old(self).bufs, filled: false }),
            final(self).wf(),
    {
        self.filled = false;
    }

    /// An append hands out what was held before, then what is new, and keeps
    /// it: the next append starts from there.
    pub proof fn law_appends_accumulate(self, buffers: Seq<Buf>, bufs: Bufs, k: Val, v: Val)
        requires
            self.wf(),
            buffers.len() + 1 <= usize::MAX,
            self.bufs matches Some(p) ==> p.k.id != p.v.id,
        ensures
            ({
                let p = self.pair(buffers, bufs, k, v);
                let after = self.bufs_after(buffers, bufs, k, v);
                let (ka, va) = self.views(bufs, k, v);
                &&& held(after, p.k) == ka
                &&& held(after, p.v) == va
                &&& p.k.id != p.v.id
                &&& ka.shape.d2 == sat_sum(self.len(), k.shape.d2)
            }),
    {
        reveal(bin);
    }
}

} // verus!
