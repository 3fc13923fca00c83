use vstd::prelude::*;

use crate::dtype::{DType, Device};
use crate::error::Error;
use crate::layer_norm::LayerNorm;
use crate::loader::{changed, plain, pp, Loader, Recipe, VarPath};
use crate::masks::{square_cells, square_mask};
use crate::shape::{d1, d2, d3, sat_product, saturating_product};
use crate::static_decode::{
    advance_effect, ended, incr_u32, linked, mask_from_pos, mask_row_effect, u32_effect, write_u32,
    Refused,
};
use crate::tape::{
    bin, held, leaf, mask_val, un, Buf, Bufs, Op, Tape, Tensor, Term, Val, Weight,
};
use crate::whisper::block::{
    lemma_block_grows, BlockState, Flow, FlowStop, PassVal, Stack,
};
use crate::whisper::config::Config;

verus! {

/// A convolution over time, with bias.
#[derive(Clone, Copy, PartialEq, Eq, Structural, Debug)]
pub struct Conv1d {
    pub weight: Weight,
    pub bias: Weight,
    pub padding: usize,
    pub stride: usize,
}

impl Conv1d {
    pub open spec fn apply(self, x: Val) -> Val {
        un(
            Op::Conv1d {
                weight: self.weight,
                bias: self.bias,
                padding: self.padding,
                stride: self.stride,
            },
            x,
        )
    }

    pub open spec fn asked(
        self,
        l: Loader,
        ins: usize,
        outs: usize,
        kernel: usize,
        vb: Seq<char>,
    ) -> bool {
        &&& l.gives(self.weight, plain(pp(vb, "weight"@), d3(outs, ins, kernel), l.reads()))
        &&& l.gives(self.bias, plain(pp(vb, "bias"@), d1(outs), l.reads()))
    }

    pub fn load(
        l: &mut Loader,
        in_channels: usize,
        out_channels: usize,
        kernel_size: usize,
        padding: usize,
        stride: usize,
        vb: &VarPath,
    ) -> (r: Conv1d)
        ensures
            final(l).grew(*old(l)),
            final(l).added(*old(l), 2),
            r.asked(*final(l), in_channels, out_channels, kernel_size, vb@),
            r.padding == padding,
            r.stride == stride,
    {
        let weight = l.get(vb, "weight", d3(out_channels, in_channels, kernel_size));
        let bias = l.get(vb, "bias", d1(out_channels));
        Conv1d { weight, bias, padding, stride }
    }

    pub fn forward(&self, t: &mut Tape, x: Tensor) -> (r: Tensor)
        requires
            old(t).has(x),
        ensures
            final(t).computed(*old(t)),
            final(t).has(r),
            r@ == self.apply(x@),
            r.shape.rank == 3,
    {
        let y = t.un(
            Op::Conv1d {
                weight: self.weight,
                bias: self.bias,
                padding: self.padding,
                stride: self.stride,
            },
            x,
        );
        assert(y@.shape.rank == 3) by {
            reveal(un);
        }
        y
    }
}

/// Shape of a table of `length` positions: as many sines as cosines.
pub open spec fn sinusoid_shape(length: usize, channels: usize) -> crate::shape::Shape {
    d2(length, sat_product(2, (channels / 2) as usize))
}

/// Asks for a table of sines and cosines of geometric frequencies.
pub fn sinusoids(l: &mut Loader, length: usize, channels: usize) -> (r: Weight)
    requires
        channels >= 2,
    ensures
        final(l).grew(*old(l)),
        final(l).added(*old(l), 1),
        final(l).gives(
            r,
            changed(
                "sinusoids"@,
                sinusoid_shape(length, channels),
                Recipe::Sinusoids,
                sinusoid_shape(length, channels),
                DType::F32,
            ),
        ),
{
    let shape = d2(length, saturating_product(2, channels / 2));
    l.get_changed(&VarPath::root(), "sinusoids", shape, Recipe::Sinusoids, shape, DType::F32)
}

#[derive(Debug)]
pub struct AudioEncoder {
    pub conv1: Conv1d,
    pub conv2: Conv1d,
    pub positional_embedding: Weight,
    pub stack: Stack,
    pub ln_post: LayerNorm,
}

/// Output of a pass and what it leaves behind.
pub struct StackOut {
    pub out: Val,
    pub bufs: Bufs,
    pub buffers: Seq<Buf>,
    pub states: Seq<BlockState>,
}

/// `r`, tape and states after the call are what `want` says.
pub open spec fn gave(
    r: Result<Tensor, Error>,
    t: Tape,
    states: Seq<BlockState>,
    want: Result<StackOut, FlowStop>,
) -> bool {
    match want {
        Err(s) => {
            &&& r == Err::<Tensor, Error>(s.error)
            &&& t.bufs() == s.bufs
            &&& t.buffers() == s.buffers
            &&& states == s.states
        },
        Ok(o) => {
            &&& r is Ok
            &&& t.has(r->Ok_0)
            &&& r->Ok_0@ == o.out
            &&& t.bufs() == o.bufs
            &&& t.buffers() == o.buffers
            &&& states == o.states
        },
    }
}

impl AudioEncoder {
    pub open spec fn wf(self) -> bool {
        self.stack.wf()
    }

    pub open spec fn asked(self, l: Loader, cfg: Config, vb: Seq<char>) -> bool {
        let n = cfg.d_model;
        &&& self.conv1.asked(l, cfg.num_mel_bins, n, 3, pp(vb, "conv1"@))
        &&& self.conv1.padding == 1 && self.conv1.stride == 1
        &&& self.conv2.asked(l, n, n, 3, pp(vb, "conv2"@))
        &&& self.conv2.padding == 1 && self.conv2.stride == 2
        &&& l.gives(
            self.positional_embedding,
            changed(
                "sinusoids"@,
                sinusoid_shape(cfg.max_source_positions, n),
                Recipe::Sinusoids,
                sinusoid_shape(cfg.max_source_positions, n),
                DType::F32,
            ),
        )
        &&& self.stack.asked(l, cfg.encoder_layers, n, cfg.encoder_attention_heads, false, vb)
        &&& self.ln_post.asked(l, n, pp(vb, "layer_norm"@))
    }

    pub fn load(l: &mut Loader, vb: &VarPath, cfg: &Config) -> (r: AudioEncoder)
        requires
            cfg.valid(),
        ensures
            final(l).grew(*old(l)),
            final(l).added(*old(l), 7 + 15 * cfg.encoder_layers),
            r.asked(*final(l), *cfg, vb@),
            r.wf(),
            forall|i: int|
                0 <= i < r.stack.states.len() ==> #[trigger] r.stack.states[i] == BlockState::new(),
    {
        let n: usize = cfg.d_model;
        let heads: usize = cfg.encoder_attention_heads;
        let conv1 = Conv1d::load(l, cfg.num_mel_bins, n, 3, 1, 1, &vb.pp("conv1"));
        let conv2 = Conv1d::load(l, n, n, 3, 1, 2, &vb.pp("conv2"));
        let positional_embedding = sinusoids(l, cfg.max_source_positions, n);
        let stack = Stack::load(l, cfg.encoder_layers, n, heads, false, vb);
        let ghost stacked = *l;
        let ln_post = LayerNorm::new(l, n, &vb.pp("layer_norm"));
        proof {
            lemma_stack_grows(stack, stacked, *l, cfg.encoder_layers, n, heads, false, vb@);
        }
        AudioEncoder { conv1, conv2, positional_embedding, stack, ln_post }
    }

    /// Frames after both convolutions, with their positions.
    pub open spec fn frames(self, x: Val) -> Val {
        let y = un(Op::Gelu, self.conv2.apply(un(Op::Gelu, self.conv1.apply(x))));
        let y = un(Op::Transpose(1, 2), y);
        bin(
            Op::BroadcastAdd,
            y,
            un(
                Op::Narrow { dim: 0, start: 0, len: y.shape.d1 },
                leaf(Op::Param(self.positional_embedding)),
            ),
        )
    }

    pub open spec fn pass(self, x: Val, flush: bool, buffers: Seq<Buf>, bufs: Bufs) -> Result<
        StackOut,
        FlowStop,
    > {
        let len = self.frames(x).shape.d1;
        let rows = self.positional_embedding.shape.d0;
        if len > rows {
            let error = Error::BeyondTable { pos: 0, len, rows };
            Err(FlowStop { error, bufs, buffers, states: self.stack.states@ })
        } else {
            match self.stack.run(
                PassVal { xa: None, mask: None, flush },
                Flow { x: self.frames(x), bufs, buffers, states: self.stack.states@ },
                self.stack.blocks.len() as int,
            ) {
                Err(s) => Err(s),
                Ok(f) => Ok(
                    StackOut {
                        out: self.ln_post.apply(f.x),
                        bufs: f.bufs,
                        buffers: f.buffers,
                        states: f.states,
                    },
                ),
            }
        }
    }

    /// Records the encoding of mel frames `[b, bins, frames]`.
    pub fn forward(&mut self, t: &mut Tape, x: Tensor, flush_kv_cache: bool) -> (r: Result<
        Tensor,
        Error,
    >)
        requires
            old(self).wf(),
            old(t).has(x),
        ensures
            final(t).grew(*old(t)),
            final(self).wf(),
            *final(self) == (AudioEncoder { stack: final(self).stack, ..*old(self) }),
            final(self).stack.same_blocks(old(self).stack),
            gave(
                r,
                *final(t),
                final(self).stack.states@,
                old(self).pass(x@, flush_kv_cache, old(t).buffers(), old(t).bufs()),
            ),
    {
        let y = self.conv1.forward(t, x);
        let y = t.un(Op::Gelu, y);
        let y = self.conv2.forward(t, y);
        let y = t.un(Op::Gelu, y);
        let y = t.un(Op::Transpose(1, 2), y);
        assert(y@.shape.rank == 3) by {
            reveal(un);
        }
        let (_bsize, seq_len, _hidden) = y.dims3()?;
        assert(self.frames(x@).shape.d1 == seq_len) by {
            reveal(bin);
        }
        let rows: usize = self.positional_embedding.shape.d0;
        if seq_len > rows {
            return Err(Error::BeyondTable { pos: 0, len: seq_len, rows });
        }
        let pe = t.leaf(Op::Param(self.positional_embedding));
        let pe = t.un(Op::Narrow { dim: 0, start: 0, len: seq_len }, pe);
        let y = t.bin(Op::BroadcastAdd, y, pe);
        let y = self.stack.forward(t, y, None, None, flush_kv_cache)?;
        Ok(self.ln_post.forward(t, y))
    }
}

/// Device-resident state of the shape-static decode path.
#[derive(Clone, Copy, PartialEq, Eq, Structural, Debug)]
pub struct WhisperStaticCtx {
    /// `u32 [1]`
    pub pos: Buf,
    /// Additive causal row, `[max_seq]`.
    pub mask: Buf,
    /// `u32 [1]`: the length of the encoder output, less one.
    pub cross_len: Buf,
    /// Additive length row, `[max_actx]`.
    pub cross_mask: Buf,
    pub max_seq: usize,
    pub max_actx: usize,
}

#[derive(Debug)]
pub struct TextDecoder {
    pub token_embedding: Weight,
    pub positional_embedding: Weight,
    pub stack: Stack,
    pub ln: LayerNorm,
    /// Positions that the causal mask covers.
    pub n_ctx: usize,
    pub static_ctx: Option<WhisperStaticCtx>,
}

impl TextDecoder {
    pub open spec fn wf(self) -> bool {
        self.stack.wf() && self.n_ctx * self.n_ctx <= usize::MAX
    }

    /// Only what the blocks keep differs.
    pub open spec fn same_but_states(self, before: TextDecoder) -> bool {
        &&& self == (TextDecoder { stack: self.stack, ..before })
        &&& self.stack.same_blocks(before.stack)
    }

    pub open spec fn asked(self, l: Loader, cfg: Config, vb: Seq<char>) -> bool {
        let n = cfg.d_model;
        &&& l.gives(
            self.token_embedding,
            plain(pp(pp(vb, "embed_tokens"@), "weight"@), d2(cfg.vocab_size, n), l.reads()),
        )
        &&& l.gives(
            self.positional_embedding,
            plain(
                pp(vb, "embed_positions.weight"@),
                d2(cfg.max_target_positions, n),
                l.reads(),
            ),
        )
        &&& self.stack.asked(l, cfg.decoder_layers, n, cfg.decoder_attention_heads, true, vb)
        &&& self.ln.asked(l, n, pp(vb, "layer_norm"@))
        &&& self.n_ctx == cfg.max_target_positions
    }

    pub fn load(l: &mut Loader, vb: &VarPath, cfg: &Config) -> (r: TextDecoder)
        requires
            cfg.valid(),
        ensures
            final(l).grew(*old(l)),
            final(l).added(*old(l), 4 + 24 * cfg.decoder_layers),
            r.asked(*final(l), *cfg, vb@),
            r.wf(),
            r.static_ctx is None,
            forall|i: int|
                0 <= i < r.stack.states.len() ==> #[trigger] r.stack.states[i] == BlockState::new(),
    {
        let n: usize = cfg.d_model;
        let heads: usize = cfg.decoder_attention_heads;
        let n_ctx: usize = cfg.max_target_positions;
        let token_embedding = l.get(&vb.pp("embed_tokens"), "weight", d2(cfg.vocab_size, n));
        let positional_embedding = l.get(vb, "embed_positions.weight", d2(n_ctx, n));
        let stack = Stack::load(l, cfg.decoder_layers, n, heads, true, vb);
        let ghost stacked = *l;
        let ln = LayerNorm::new(l, n, &vb.pp("layer_norm"));
        proof {
            lemma_stack_grows(stack, stacked, *l, cfg.decoder_layers, n, heads, true, vb@);
        }
        TextDecoder {
            token_embedding,
            positional_embedding,
            stack,
            ln,
            n_ctx,
            static_ctx: None,
        }
    }

    /// Embeddings of tokens `[b, last]` with their positions.
    pub open spec fn embedded(self, x: Val) -> Val {
        bin(
            Op::BroadcastAdd,
            un(Op::Embedding(self.token_embedding), x),
            un(
                Op::Narrow { dim: 0, start: 0, len: x.shape.last() },
                leaf(Op::Param(self.positional_embedding)),
            ),
        )
    }

    /// No position sees a later one.
    pub open spec fn causal_mask(self) -> Val {
        mask_val(self.n_ctx, self.n_ctx, square_cells(self.n_ctx, None))
    }

    pub open spec fn pass(
        self,
        x: Val,
        xa: Val,
        flush: bool,
        buffers: Seq<Buf>,
        bufs: Bufs,
    ) -> Result<StackOut, FlowStop> {
        let (len, rows) = (x.shape.last(), self.positional_embedding.shape.d0);
        let states = self.stack.states@;
        if x.shape.rank == 0 {
            let error = Error::UnexpectedRank { expected: 1, got: 0 };
            Err(FlowStop { error, bufs, buffers, states })
        } else if len > rows {
            let error = Error::BeyondTable { pos: 0, len, rows };
            Err(FlowStop { error, bufs, buffers, states })
        } else {
            match self.stack.run(
                PassVal { xa: Some(xa), mask: Some(self.causal_mask()), flush },
                Flow { x: self.embedded(x), bufs, buffers, states },
                self.stack.blocks.len() as int,
            ) {
                Err(e) => Err(e),
                Ok(f) => Ok(
                    StackOut {
                        out: self.ln.apply(f.x),
                        bufs: f.bufs,
                        buffers: f.buffers,
                        states: f.states,
                    },
                ),
            }
        }
    }

    /// Records a pass over all tokens so far, attending to the encoder output.
    pub fn forward(&mut self, t: &mut Tape, x: Tensor, xa: Tensor, flush_kv_cache: bool) -> (r:
        Result<Tensor, Error>)
        requires
            old(self).wf(),
            old(t).has(x),
            old(t).has(xa),
        ensures
            final(t).grew(*old(t)),
            final(self).wf(),
            final(self).same_but_states(*old(self)),
            gave(
                r,
                *final(t),
                final(self).stack.states@,
                old(self).pass(x@, xa@, flush_kv_cache, old(t).buffers(), old(t).bufs()),
            ),
    {
        if x.shape.rank == 0 {
            return Err(Error::UnexpectedRank { expected: 1, got: 0 });
        }
        let last: usize = x.shape.last();
        let rows: usize = self.positional_embedding.shape.d0;
        if last > rows {
            return Err(Error::BeyondTable { pos: 0, len: last, rows });
        }
        let y = t.un(Op::Embedding(self.token_embedding), x);
        let pe = t.leaf(Op::Param(self.positional_embedding));
        let pe = t.un(Op::Narrow { dim: 0, start: 0, len: last }, pe);
        let y = t.bin(Op::BroadcastAdd, y, pe);
        let cells = square_mask(self.n_ctx, None);
        let mask = t.mask(self.n_ctx, self.n_ctx, cells);
        let y = self.stack.forward(t, y, Some(xa), Some(mask), flush_kv_cache)?;
        Ok(self.ln.forward(t, y))
    }

    /// The context of the static path after `enable_static_decode`.
    pub open spec fn ctx_made(
        self,
        max_seq: usize,
        max_actx: usize,
        buffers: Seq<Buf>,
        bufs: Bufs,
    ) -> (WhisperStaticCtx, Seq<Buf>, Bufs) {
        match self.static_ctx {
            Some(ctx) => (ctx, buffers, bufs),
            None => {
                let (n, dtype) = (buffers.len(), self.positional_embedding.dtype);
                let pos = Buf { id: n as usize, shape: d1(1), dtype: DType::U32 };
                let mask = Buf { id: (n + 1) as usize, shape: d1(max_seq), dtype };
                let cross_len = Buf { id: (n + 2) as usize, shape: d1(1), dtype: DType::U32 };
                let cross_mask = Buf { id: (n + 3) as usize, shape: d1(max_actx), dtype };
                (
                    WhisperStaticCtx { pos, mask, cross_len, cross_mask, max_seq, max_actx },
                    buffers.push(pos).push(mask).push(cross_len).push(cross_mask),
                    zero(zero(zero(zero(bufs, pos), mask), cross_len), cross_mask),
                )
            },
        }
    }

    /// Turns the static decode path on, with a fixed budget of positions.
    pub fn enable_static_decode(&mut self, t: &mut Tape, max_seq: usize, max_actx: usize)
        requires
            old(self).wf(),
        ensures
            final(self).wf(),
            final(t).grew(*old(t)),
            ({
                let (ctx, u, b) = old(self).ctx_made(
                    max_seq,
                    max_actx,
                    old(t).buffers(),
                    old(t).bufs(),
                );
                &&& *final(self) == (TextDecoder {
                    static_ctx: Some(ctx),
                    stack: final(self).stack,
                    ..*old(self)
                })
                &&& final(self).stack.same_blocks(old(self).stack)
                &&& (final(self).stack.states@, final(t).buffers(), final(t).bufs()) == old(
                    self,
                ).stack.enabled(
                    max_seq,
                    old(self).positional_embedding.dtype,
                    u,
                    b,
                    old(self).stack.blocks.len() as int,
                )
            }),
    {
        let dtype = self.positional_embedding.dtype;
        if self.static_ctx.is_none() {
            let pos = t.allocate(d1(1), DType::U32);
            let mask = t.allocate(d1(max_seq), dtype);
            let cross_len = t.allocate(d1(1), DType::U32);
            let cross_mask = t.allocate(d1(max_actx), dtype);
            self.static_ctx = Some(
                WhisperStaticCtx { pos, mask, cross_len, cross_mask, max_seq, max_actx },
            );
        }
        self.stack.enable_static(t, max_seq, dtype);
    }

    pub fn static_enabled(&self) -> (r: bool)
        ensures
            r == self.static_ctx is Some,
    {
        self.static_ctx.is_some()
    }

    /// A new encoder output in the static buffers, with its length mask.
    pub open spec fn prepared(self, device: Device, xa: Val, buffers: Seq<Buf>, bufs: Bufs) -> Result<
        (Seq<BlockState>, Seq<Buf>, Bufs),
        FlowStop,
    > {
        match self.static_ctx {
            None => Err(
                FlowStop {
                    error: Error::StaticNotEnabled,
                    bufs,
                    buffers,
                    states: self.stack.states@,
                },
            ),
            Some(ctx) => match self.stack.crossed(
                device,
                xa,
                ctx.max_actx,
                buffers,
                bufs,
                self.stack.blocks.len() as int,
            ) {
                Err(e) => Err(e),
                Ok((n, s, u, b)) => {
                    let top = (if n > 1 { n - 1 } else { 0 }) as u32;
                    match u32_effect(device, b, ctx.cross_len, top) {
                        Err(error) => Err(FlowStop { error, bufs: b, buffers: u, states: s }),
                        Ok(b) => match mask_row_effect(
                            device,
                            b,
                            ctx.cross_mask,
                            ctx.cross_len,
                            0,
                        ) {
                            Err(error) => Err(
                                FlowStop { error, bufs: b, buffers: u, states: s },
                            ),
                            Ok(b) => Ok((s, u, b)),
                        },
                    }
                },
            },
        }
    }

    /// Takes a new encoder output into the address-stable buffers, once per
    /// segment and outside of a capture.
    pub fn prepare_cross_static(&mut self, t: &mut Tape, xa: Tensor) -> (r: Result<(), Error>)
        requires
            old(self).wf(),
            old(t).has(xa),
        ensures
            final(self).wf(),
            final(self).same_but_states(*old(self)),
            final(t).grew(*old(t)),
            match old(self).prepared(old(t).on(), xa@, old(t).buffers(), old(t).bufs()) {
                Err(x) => {
                    &&& r == Err::<(), Error>(x.error)
                    &&& final(self).stack.states@ == x.states
                    &&& final(t).buffers() == x.buffers
                    &&& final(t).bufs() == x.bufs
                },
                Ok((s, u, b)) => {
                    &&& r == Ok::<(), Error>(())
                    &&& final(self).stack.states@ == s
                    &&& final(t).buffers() == u
                    &&& final(t).bufs() == b
                },
            },
    {
        let ctx = match self.static_ctx {
            None => {
                return Err(Error::StaticNotEnabled);
            },
            Some(ctx) => ctx,
        };
        let n: usize = self.stack.set_cross_static(t, xa, ctx.max_actx)?;
        let top: usize = if n > 1 { n - 1 } else { 0 };
        write_u32(t, ctx.cross_len, top as u32)?;
        mask_from_pos(t, ctx.cross_mask, ctx.cross_len, 0)
    }

    /// Rewinds the static position between segments, never inside a captured
    /// graph.
    pub fn reset_static(&mut self, t: &mut Tape) -> (r: Result<(), Error>)
        ensures
            *final(self) == *old(self),
            final(t).wrote(*old(t)),
            ended(
                r,
                old(t).bufs(),
                final(t).bufs(),
                match old(self).static_ctx {
                    Some(ctx) => u32_effect(old(t).on(), old(t).bufs(), ctx.pos, 0),
                    None => Ok(old(t).bufs()),
                },
            ),
    {
        match self.static_ctx {
            Some(ctx) => write_u32(t, ctx.pos, 0),
            None => Ok(()),
        }
    }

    /// One token with the position that `pos` holds.
    pub open spec fn placed(self, token: Val, pos: Val) -> Val {
        bin(
            Op::BroadcastAdd,
            un(Op::Embedding(self.token_embedding), token),
            un(
                Op::Unsqueeze(0),
                bin(Op::IndexSelect(0), leaf(Op::Param(self.positional_embedding)), pos),
            ),
        )
    }

    /// One decode step.
    pub open spec fn step_pass(self, device: Device, token: Val, bufs: Bufs) -> Result<
        (Val, Bufs),
        Refused,
    > {
        match self.static_ctx {
            None => Err(Refused { error: Error::StaticNotEnabled, bufs }),
            Some(ctx) => match linked(bufs, mask_row_effect(device, bufs, ctx.mask, ctx.pos, 0)) {
                Err(x) => Err(x),
                Ok(b) => match self.stack.step(
                    device,
                    self.placed(token, held(b, ctx.pos)),
                    ctx.pos,
                    ctx.mask,
                    ctx.cross_mask,
                    b,
                    self.stack.blocks.len() as int,
                ) {
                    Err(e) => Err(e),
                    Ok((y, b)) => match linked(b, advance_effect(device, b, ctx.pos, 1)) {
                        Err(x) => Err(x),
                        Ok(b) => Ok((self.ln.apply(y), b)),
                    },
                },
            },
        }
    }

    /// One decode step that can be replayed: a `[1, 1]` token to a `[1, 1, d]`
    /// hidden state. The position enters as a row of the position table picked
    /// on the device.
    pub fn forward_static(&self, t: &mut Tape, token: Tensor) -> (r: Result<Tensor, Error>)
        requires
            self.wf(),
            old(t).has(token),
        ensures
            final(t).wrote(*old(t)),
            match self.step_pass(old(t).on(), token@, old(t).bufs()) {
                Err(x) => r == Err::<Tensor, Error>(x.error) && final(t).bufs() == x.bufs,
                Ok((y, b)) => {
                    &&& r is Ok
                    &&& final(t).has(r->Ok_0)
                    &&& r->Ok_0@ == y
                    &&& final(t).bufs() == b
                },
            },
    {
        let ctx = match self.static_ctx {
            None => {
                return Err(Error::StaticNotEnabled);
            },
            Some(ctx) => ctx,
        };
        mask_from_pos(t, ctx.mask, ctx.pos, 0)?;
        let tok = t.un(Op::Embedding(self.token_embedding), token);
        let table = t.leaf(Op::Param(self.positional_embedding));
        let at = t.read(ctx.pos);
        let pe = t.bin(Op::IndexSelect(0), table, at);
        let pe = t.un(Op::Unsqueeze(0), pe);
        let x = t.bin(Op::BroadcastAdd, tok, pe);
        let x = self.stack.forward_static(t, x, ctx.pos, ctx.mask, ctx.cross_mask)?;
        let x = self.ln.forward(t, x);
        incr_u32(t, ctx.pos)?;
        Ok(x)
    }

    /// Logits of hidden states: the token table is the head.
    pub open spec fn logits(self, x: Val) -> Val {
        let w = un(Op::BroadcastLeft(x.shape.d0), leaf(Op::Param(self.token_embedding)));
        bin(Op::MatMul, x, un(Op::Transpose(1, 2), w))
    }

    pub fn final_linear(&self, t: &mut Tape, x: Tensor) -> (r: Result<Tensor, Error>)
        requires
            old(t).has(x),
        ensures
            final(t).computed(*old(t)),
            x.shape.rank == 0 ==> r == Err::<Tensor, Error>(
                Error::UnexpectedRank { expected: 1, got: 0 },
            ),
            x.shape.rank > 0 ==> r is Ok && final(t).has(r->Ok_0) && r->Ok_0@ == self.logits(x@),
    {
        if x.shape.rank == 0 {
            return Err(Error::UnexpectedRank { expected: 1, got: 0 });
        }
        let w = t.leaf(Op::Param(self.token_embedding));
        let w = t.un(Op::BroadcastLeft(x.shape.d0), w);
        let w = t.un(Op::Transpose(1, 2), w);
        Ok(t.bin(Op::MatMul, x, w))
    }

    pub fn reset_kv_cache(&mut self)
        requires
            old(self).wf(),
        ensures
            final(self).wf(),
            final(self).same_but_states(*old(self)),
            final(self).stack.states@ == old(self).stack.reset(),
    {
        self.stack.reset_kv_cache();
    }
}

/// The buffer holds zeros.
pub open spec fn zero(bufs: Bufs, b: Buf) -> Bufs {
    bufs.insert(b.id as int, Term::Leaf(Op::Zeros { shape: b.shape, dtype: b.dtype }))
}

#[derive(Debug)]
pub struct Whisper {
    pub encoder: AudioEncoder,
    pub decoder: TextDecoder,
    pub config: Config,
}

impl Whisper {
    pub open spec fn wf(self) -> bool {
        self.encoder.wf() && self.decoder.wf()
    }

    pub fn load(l: &mut Loader, vb: &VarPath, config: Config) -> (r: Whisper)
        requires
            config.valid(),
        ensures
            final(l).grew(*old(l)),
            final(l).added(*old(l), 11 + 15 * config.encoder_layers + 24 * config.decoder_layers),
            r.wf(),
            r.config == config,
            r.encoder.asked(*final(l), config, pp(vb@, "model.encoder"@)),
            r.decoder.asked(*final(l), config, pp(vb@, "model.decoder"@)),
            r.decoder.static_ctx is None,
            forall|i: int|
                0 <= i < r.encoder.stack.states.len() ==> #[trigger] r.encoder.stack.states[i]
                    == BlockState::new(),
            forall|i: int|
                0 <= i < r.decoder.stack.states.len() ==> #[trigger] r.decoder.stack.states[i]
                    == BlockState::new(),
    {
        let encoder = AudioEncoder::load(l, &vb.pp("model.encoder"), &config);
        let ghost encoded = *l;
        let decoder = TextDecoder::load(l, &vb.pp("model.decoder"), &config);
        proof {
            lemma_stack_grows(
                encoder.stack,
                encoded,
                *l,
                config.encoder_layers,
                config.d_model,
                config.encoder_attention_heads,
                false,
                pp(vb@, "model.encoder"@),
            );
        }
        Whisper { encoder, decoder, config }
    }

    pub fn reset_kv_cache(&mut self)
        requires
            old(self).wf(),
        ensures
            final(self).wf(),
            final(self).config == old(self).config,
            final(self).decoder.same_but_states(old(self).decoder),
            final(self).encoder == (AudioEncoder {
                stack: final(self).encoder.stack,
                ..old(self).encoder
            }),
            final(self).encoder.stack.same_blocks(old(self).encoder.stack),
            final(self).encoder.stack.states@ == old(self).encoder.stack.reset(),
            final(self).decoder.stack.states@ == old(self).decoder.stack.reset(),
    {
        self.encoder.stack.reset_kv_cache();
        self.decoder.reset_kv_cache();
    }
}

/// What was asked for stays asked for.
proof fn lemma_stack_grows(
    s: Stack,
    before: Loader,
    l: Loader,
    n: usize,
    n_state: usize,
    n_head: usize,
    ca: bool,
    vb: Seq<char>,
)
    requires
        s.asked(before, n, n_state, n_head, ca, vb),
        l.grew(before),
    ensures
        s.asked(l, n, n_state, n_head, ca, vb),
{
    assert forall|i: int| 0 <= i < s.blocks.len() implies (#[trigger] s.blocks[i]).asked(
        l,
        n_state,
        n_head,
        ca,
        pp(pp(vb, "layers"@), crate::loader::decimal(i as nat)),
    ) by {
        lemma_block_grows(
            s.blocks[i],
            before,
            l,
            n_state,
            n_head,
            ca,
            pp(pp(vb, "layers"@), crate::loader::decimal(i as nat)),
        );
    }
}

} // verus!
