use vstd::prelude::*;

use crate::dtype::{DType, Device};
use crate::error::Error;
use crate::kv_cache::{KvBufs, KvCache};
use crate::shape::{d1, d2};
use crate::static_decode::{
    chain_ended, ended, linked, mask_from_pos, mask_row_effect, u32_effect, write_u32, Refused,
};
use crate::tape::{Buf, Bufs, Op, Tape, Tensor, Term, Val};

verus! {

/// What a layer keeps between passes.
#[derive(Clone, Copy, PartialEq, Eq, Structural, Debug)]
pub struct LayerKv {
    pub cache: KvCache,
    /// Preallocated `[kv_heads, max_seq, head_dim]` keys and values of the
    /// shape-static path, made on first use.
    pub statics: Option<KvBufs>,
}

/// Key/value states that trailing layers read from the last storing layer of
/// each type, within one pass.
#[derive(Clone, Copy)]
pub struct SharedKvStates {
    pub full: Option<(Tensor, Tensor)>,
    pub sliding: Option<(Tensor, Tensor)>,
}

/// [`SharedKvStates`] as values.
pub struct Shared {
    pub full: Option<(Val, Val)>,
    pub sliding: Option<(Val, Val)>,
}

pub open spec fn pair_val(p: Option<(Tensor, Tensor)>) -> Option<(Val, Val)> {
    match p {
        Some((k, v)) => Some((k@, v@)),
        None => None,
    }
}

impl View for SharedKvStates {
    type V = Shared;

    open spec fn view(&self) -> Shared {
        Shared { full: pair_val(self.full), sliding: pair_val(self.sliding) }
    }
}

impl Shared {
    pub open spec fn none() -> Shared {
        Shared { full: None, sliding: None }
    }

    pub open spec fn slot(self, sliding: bool) -> Option<(Val, Val)> {
        if sliding { self.sliding } else { self.full }
    }

    pub open spec fn with(self, sliding: bool, k: Val, v: Val) -> Shared {
        if sliding {
            Shared { full: self.full, sliding: Some((k, v)) }
        } else {
            Shared { full: Some((k, v)), sliding: self.sliding }
        }
    }
}

impl SharedKvStates {
    /// Nothing has been stored yet.
    pub fn none() -> (r: SharedKvStates)
        ensures
            r@ == Shared::none(),
            forall|t: Tape| r.on(t),
    {
        SharedKvStates { full: None, sliding: None }
    }

    /// The states are values of `t`.
    pub open spec fn on(self, t: Tape) -> bool {
        &&& self.full matches Some((k, v)) ==> t.has(k) && t.has(v)
        &&& self.sliding matches Some((k, v)) ==> t.has(k) && t.has(v)
    }

    pub fn slot(&self, sliding: bool) -> (r: Option<(Tensor, Tensor)>)
        ensures
            pair_val(r) == self@.slot(sliding),
            r == (if sliding { self.sliding } else { self.full }),
    {
        if sliding { self.sliding } else { self.full }
    }

    pub fn store(&mut self, sliding: bool, k: Tensor, v: Tensor)
        ensures
            final(self)@ == old(self)@.with(sliding, k@, v@),
            forall|t: Tape| old(self).on(t) && t.has(k) && t.has(v) ==> #[trigger] final(self).on(t),
    {
        if sliding {
            self.sliding = Some((k, v));
        } else {
            self.full = Some((k, v));
        }
    }
}

/// Shared state of the shape-static decode path: the position lives in a
/// device scalar, masks over the full preallocated extent are rewritten from it
/// each token, and keys and values have fixed places. Everything that a
/// captured step touches is address- and shape-static, so one captured step
/// replays for the whole generation.
#[derive(Clone, Copy, PartialEq, Eq, Structural, Debug)]
pub struct StaticCtx {
    /// `u32 [1]`
    pub pos: Buf,
    /// `f32 [max_seq]`
    pub mask_global: Buf,
    /// `f32 [max_seq]`
    pub mask_sliding: Buf,
    pub max_seq: usize,
    pub sliding_window: usize,
    /// State of the chunked prefill graph, once it is enabled.
    pub chunk: Option<ChunkCtx>,
}

/// State of the chunked prefill: everything a captured chunk step reads or
/// advances.
#[derive(Clone, Copy, PartialEq, Eq, Structural, Debug)]
pub struct ChunkCtx {
    /// `u32 [1, C]`, fed between replays.
    pub ids: Buf,
    /// `u32 [C]`
    pub rope_idx: Buf,
    /// `f32 [C, max_seq]`
    pub mask_global: Buf,
    /// `f32 [C, max_seq]`
    pub mask_sliding: Buf,
    pub chunk: usize,
}

/// Contents after a buffer of zeros was made.
pub open spec fn zeroed(bufs: Bufs, b: Buf) -> Bufs {
    bufs.insert(b.id as int, Term::Leaf(Op::Zeros { shape: b.shape, dtype: b.dtype }))
}

impl StaticCtx {
    /// The context that is made after `n` buffers.
    pub open spec fn made(n: int, max_seq: usize, sliding_window: usize) -> StaticCtx {
        StaticCtx {
            pos: Buf { id: n as usize, shape: d1(1), dtype: DType::U32 },
            mask_global: Buf { id: (n + 1) as usize, shape: d1(max_seq), dtype: DType::F32 },
            mask_sliding: Buf { id: (n + 2) as usize, shape: d1(max_seq), dtype: DType::F32 },
            max_seq,
            sliding_window,
            chunk: None,
        }
    }

    /// Makes the position and the mask rows.
    pub fn new(t: &mut Tape, max_seq: usize, sliding_window: usize) -> (r: StaticCtx)
        ensures
            final(t).grew(*old(t)),
            r == StaticCtx::made(old(t).buffers().len() as int, max_seq, sliding_window),
            final(t).buffers() == old(t).buffers().push(r.pos).push(r.mask_global).push(
                r.mask_sliding,
            ),
            final(t).bufs() == zeroed(
                zeroed(zeroed(old(t).bufs(), r.pos), r.mask_global),
                r.mask_sliding,
            ),
    {
        let pos = t.allocate(d1(1), DType::U32);
        let mask_global = t.allocate(d1(max_seq), DType::F32);
        let mask_sliding = t.allocate(d1(max_seq), DType::F32);
        StaticCtx { pos, mask_global, mask_sliding, max_seq, sliding_window, chunk: None }
    }

    pub open spec fn refreshed(self, device: Device, bufs: Bufs) -> Result<Bufs, Refused> {
        match linked(bufs, mask_row_effect(device, bufs, self.mask_global, self.pos, 0)) {
            Err(s) => Err(s),
            Ok(b) => linked(
                b,
                mask_row_effect(device, b, self.mask_sliding, self.pos, self.sliding_window),
            ),
        }
    }

    /// Rewrites both mask rows for the current position.
    pub fn refresh_masks(&self, t: &mut Tape) -> (r: Result<(), Error>)
        ensures
            final(t).wrote(*old(t)),
            chain_ended(r, final(t).bufs(), self.refreshed(old(t).on(), old(t).bufs())),
    {
        mask_from_pos(t, self.mask_global, self.pos, 0)?;
        mask_from_pos(t, self.mask_sliding, self.pos, self.sliding_window)
    }

    /// Rewinds the position to zero.
    pub fn reset(&self, t: &mut Tape) -> (r: Result<(), Error>)
        ensures
            final(t).wrote(*old(t)),
            ended(
                r,
                old(t).bufs(),
                final(t).bufs(),
                u32_effect(old(t).on(), old(t).bufs(), self.pos, 0),
            ),
    {
        write_u32(t, self.pos, 0)
    }

    /// The chunk state that is made after `n` buffers.
    pub open spec fn chunk_made(self, n: int, chunk: usize) -> ChunkCtx {
        ChunkCtx {
            ids: Buf { id: n as usize, shape: d2(1, chunk), dtype: DType::U32 },
            rope_idx: Buf { id: (n + 1) as usize, shape: d1(chunk), dtype: DType::U32 },
            mask_global: Buf {
                id: (n + 2) as usize,
                shape: d2(chunk, self.max_seq),
                dtype: DType::F32,
            },
            mask_sliding: Buf {
                id: (n + 3) as usize,
                shape: d2(chunk, self.max_seq),
                dtype: DType::F32,
            },
            chunk,
        }
    }

    /// Makes the state of the chunked prefill, unless it is there already.
    pub fn enable_chunk(&mut self, t: &mut Tape, chunk: usize)
        ensures
            final(t).grew(*old(t)),
            old(self).chunk is Some ==> *final(self) == *old(self) && final(t).computed(*old(t)),
            old(self).chunk is None ==> ({
                let c = old(self).chunk_made(old(t).buffers().len() as int, chunk);
                &&& *final(self) == (StaticCtx { chunk: Some(c), ..*old(self) })
                &&& final(t).buffers() == old(t).buffers().push(c.ids).push(c.rope_idx).push(
                    c.mask_global,
                ).push(c.mask_sliding)
                &&& final(t).bufs() == zeroed(
                    zeroed(zeroed(zeroed(old(t).bufs(), c.ids), c.rope_idx), c.mask_global),
                    c.mask_sliding,
                )
            }),
    {
        if self.chunk.is_none() {
            let ids = t.allocate(d2(1, chunk), DType::U32);
            let rope_idx = t.allocate(d1(chunk), DType::U32);
            let mask_global = t.allocate(d2(chunk, self.max_seq), DType::F32);
            let mask_sliding = t.allocate(d2(chunk, self.max_seq), DType::F32);
            self.chunk = Some(ChunkCtx { ids, rope_idx, mask_global, mask_sliding, chunk });
        }
    }
}

} // verus!
