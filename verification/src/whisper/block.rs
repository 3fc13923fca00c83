use vstd::prelude::*;

use crate::dtype::{DType, Device};
use crate::error::Error;
use crate::layer_norm::LayerNorm;
use crate::loader::{decimal, pp, Loader, Proj, VarPath};
use crate::shape::{sat_product, saturating_product};
use crate::static_decode::Refused;
use crate::tape::{bin, opt_val, un, Buf, Bufs, Op, Tape, Tensor, Val};
use crate::whisper::attention::{MhaState, MultiHeadAttention};

verus! {

/// Attention to the encoder output, with its norm.
#[derive(Clone, Copy, PartialEq, Eq, Structural, Debug)]
pub struct CrossAttention {
    pub attn: MultiHeadAttention,
    pub ln: LayerNorm,
}

#[derive(Clone, Copy, PartialEq, Eq, Structural, Debug)]
pub struct ResidualAttentionBlock {
    pub attn: MultiHeadAttention,
    pub attn_ln: LayerNorm,
    pub cross_attn: Option<CrossAttention>,
    pub mlp_linear1: Proj,
    pub mlp_linear2: Proj,
    pub mlp_ln: LayerNorm,
}

/// What a block keeps between passes.
#[derive(Clone, Copy, PartialEq, Eq, Structural, Debug)]
pub struct BlockState {
    pub attn: MhaState,
    pub cross: MhaState,
}

/// Output of a block and what it leaves behind.
pub struct BlockOut {
    pub out: Val,
    pub bufs: Bufs,
    pub buffers: Seq<Buf>,
    pub state: BlockState,
}

/// Why a block stopped, and what it leaves behind.
pub struct BlockStop {
    pub error: Error,
    pub bufs: Bufs,
    pub buffers: Seq<Buf>,
    pub state: BlockState,
}

/// Everything a pass works on beside the block.
pub struct PassVal {
    pub xa: Option<Val>,
    pub mask: Option<Val>,
    pub flush: bool,
}

impl BlockState {
    #[verifier::allow_in_spec]
    pub fn new() -> BlockState
        returns
            (BlockState { attn: MhaState::new(), cross: MhaState::new() }),
    {
        BlockState { attn: MhaState::new(), cross: MhaState::new() }
    }

    pub open spec fn wf(self) -> bool {
        self.attn.wf() && self.cross.wf()
    }
}

impl ResidualAttentionBlock {
    pub open spec fn wf(self) -> bool {
        self.attn.wf() && (self.cross_attn matches Some(c) ==> c.attn.wf())
    }

    pub open spec fn asked(
        self,
        l: Loader,
        n_state: usize,
        n_head: usize,
        ca: bool,
        vb: Seq<char>,
    ) -> bool {
        let n_mlp = sat_product(n_state, 4);
        &&& self.attn.asked(l, n_state, n_head, pp(vb, "self_attn"@))
        &&& self.attn_ln.asked(l, n_state, pp(vb, "self_attn_layer_norm"@))
        &&& self.cross_attn is Some <==> ca
        &&& self.cross_attn matches Some(c) ==> {
            &&& c.attn.asked(l, n_state, n_head, pp(vb, "encoder_attn"@))
            &&& c.ln.asked(l, n_state, pp(vb, "encoder_attn_layer_norm"@))
        }
        &&& self.mlp_linear1.asked(l, n_state, n_mlp, true, pp(vb, "fc1"@), None)
        &&& self.mlp_linear2.asked(l, n_mlp, n_state, true, pp(vb, "fc2"@), None)
        &&& self.mlp_ln.asked(l, n_state, pp(vb, "final_layer_norm"@))
    }

    /// How many tensors a block is, with attention to the encoder or without.
    pub open spec fn tensors(ca: bool) -> int {
        if ca {
            24
        } else {
            15
        }
    }

    pub fn load(l: &mut Loader, n_state: usize, n_head: usize, ca: bool, vb: &VarPath) -> (r:
        ResidualAttentionBlock)
        ensures
            final(l).grew(*old(l)),
            final(l).added(*old(l), Self::tensors(ca)),
            r.asked(*final(l), n_state, n_head, ca, vb@),
    {
        let attn = MultiHeadAttention::load(l, n_state, n_head, &vb.pp("self_attn"));
        let attn_ln = LayerNorm::new(l, n_state, &vb.pp("self_attn_layer_norm"));
        let cross_attn = if ca {
            let attn = MultiHeadAttention::load(l, n_state, n_head, &vb.pp("encoder_attn"));
            let ln = LayerNorm::new(l, n_state, &vb.pp("encoder_attn_layer_norm"));
            Some(CrossAttention { attn, ln })
        } else {
            None
        };
        let n_mlp: usize = saturating_product(n_state, 4);
        let mlp_linear1 = Proj::dense(l, n_state, n_mlp, true, &vb.pp("fc1"));
        let mlp_linear2 = Proj::dense(l, n_mlp, n_state, true, &vb.pp("fc2"));
        let mlp_ln = LayerNorm::new(l, n_state, &vb.pp("final_layer_norm"));
        ResidualAttentionBlock { attn, attn_ln, cross_attn, mlp_linear1, mlp_linear2, mlp_ln }
    }

    /// `x` and the feed-forward block on it.
    pub open spec fn fed(self, x: Val) -> Val {
        bin(
            Op::Add,
            x,
            self.mlp_linear2.apply(
                un(Op::Gelu, self.mlp_linear1.apply(self.mlp_ln.apply(x))),
            ),
        )
    }

    fn feed(&self, t: &mut Tape, x: Tensor) -> (r: Tensor)
        requires
            old(t).has(x),
        ensures
            final(t).computed(*old(t)),
            final(t).has(r),
            r@ == self.fed(x@),
    {
        let y = self.mlp_ln.forward(t, x);
        let y = self.mlp_linear1.forward(t, y);
        let y = t.un(Op::Gelu, y);
        let y = self.mlp_linear2.forward(t, y);
        t.bin(Op::Add, x, y)
    }

    #[verifier::opaque]
    pub open spec fn pass(
        self,
        x: Val,
        p: PassVal,
        state: BlockState,
        buffers: Seq<Buf>,
        bufs: Bufs,
    ) -> Result<BlockOut, BlockStop> {
        match self.attn.pass(
            self.attn_ln.apply(x),
            None,
            p.mask,
            p.flush,
            state.attn,
            buffers,
            bufs,
        ) {
            Err(s) => Err(
                BlockStop {
                    error: s.error,
                    bufs: s.bufs,
                    buffers: s.buffers,
                    state: BlockState { attn: s.state, cross: state.cross },
                },
            ),
            Ok(a) => {
                let x = bin(Op::Add, x, a.out);
                match self.cross_attn {
                    None => Ok(
                        BlockOut {
                            out: self.fed(x),
                            bufs: a.bufs,
                            buffers: a.buffers,
                            state: BlockState { attn: a.state, cross: state.cross },
                        },
                    ),
                    Some(c) => match c.attn.pass(
                        c.ln.apply(x),
                        p.xa,
                        None,
                        p.flush,
                        state.cross,
                        a.buffers,
                        a.bufs,
                    ) {
                        Err(s) => Err(
                            BlockStop {
                                error: s.error,
                                bufs: s.bufs,
                                buffers: s.buffers,
                                state: BlockState { attn: a.state, cross: s.state },
                            },
                        ),
                        Ok(b) => Ok(
                            BlockOut {
                                out: self.fed(bin(Op::Add, x, b.out)),
                                bufs: b.bufs,
                                buffers: b.buffers,
                                state: BlockState { attn: a.state, cross: b.state },
                            },
                        ),
                    },
                }
            },
        }
    }

    pub fn forward(
        &self,
        t: &mut Tape,
        state: &mut BlockState,
        x: Tensor,
        xa: Option<Tensor>,
        mask: Option<Tensor>,
        flush_kv_cache: bool,
    ) -> (r: Result<Tensor, Error>)
        requires
            self.wf(),
            old(state).wf(),
            old(t).has(x),
            old(t).has_opt(xa),
            old(t).has_opt(mask),
        ensures
            final(t).grew(*old(t)),
            final(state).wf(),
            match self.pass(
                x@,
                (PassVal { xa: opt_val(xa), mask: opt_val(mask), flush: flush_kv_cache }),
                *old(state),
                old(t).buffers(),
                old(t).bufs(),
            ) {
                Err(s) => {
                    &&& r == Err::<Tensor, Error>(s.error)
                    &&& final(t).bufs() == s.bufs
                    &&& final(t).buffers() == s.buffers
                    &&& *final(state) == s.state
                },
                Ok(o) => {
                    &&& r is Ok
                    &&& final(t).has(r->Ok_0)
                    &&& r->Ok_0@ == o.out
                    &&& final(t).bufs() == o.bufs
                    &&& final(t).buffers() == o.buffers
                    &&& *final(state) == o.state
                },
            },
    {
        reveal(ResidualAttentionBlock::pass);
        let y = self.attn_ln.forward(t, x);
        let a = self.attn.forward(t, &mut state.attn, y, None, mask, flush_kv_cache)?;
        let x = t.bin(Op::Add, x, a);
        let x = match self.cross_attn {
            None => x,
            Some(c) => {
                let y = c.ln.forward(t, x);
                let b = c.attn.forward(t, &mut state.cross, y, xa, None, flush_kv_cache)?;
                t.bin(Op::Add, x, b)
            },
        };
        Ok(self.feed(t, x))
    }

    /// Static buffers made, unless they are there.
    pub open spec fn enabled(
        self,
        state: BlockState,
        max_seq: usize,
        dtype: DType,
        buffers: Seq<Buf>,
        bufs: Bufs,
    ) -> (BlockState, Seq<Buf>, Bufs) {
        let (attn, buffers, bufs) = self.attn.enabled(state.attn, max_seq, dtype, buffers, bufs);
        (BlockState { attn, cross: state.cross }, buffers, bufs)
    }

    pub fn enable_static(&self, t: &mut Tape, state: &mut BlockState, max_seq: usize, dtype: DType)
        requires
            self.wf(),
            old(state).wf(),
        ensures
            final(state).wf(),
            final(t).grew(*old(t)),
            (*final(state), final(t).buffers(), final(t).bufs()) == self.enabled(
                *old(state),
                max_seq,
                dtype,
                old(t).buffers(),
                old(t).bufs(),
            ),
    {
        self.attn.enable_static_self(t, &mut state.attn, max_seq, dtype);
    }

    /// The encoder output taken into the buffers of the static path.
    pub open spec fn crossed(
        self,
        device: Device,
        xa: Val,
        max_actx: usize,
        state: BlockState,
        buffers: Seq<Buf>,
        bufs: Bufs,
    ) -> Result<(usize, BlockState, Seq<Buf>, Bufs), BlockStop> {
        match self.cross_attn {
            None => Ok((0, state, buffers, bufs)),
            Some(c) => match c.attn.crossed(device, xa, max_actx, state.cross, buffers, bufs) {
                Err(s) => Err(
                    BlockStop {
                        error: s.error,
                        bufs: s.bufs,
                        buffers: s.buffers,
                        state: BlockState { attn: state.attn, cross: s.state },
                    },
                ),
                Ok((n, cross, u, b)) => Ok((n, BlockState { attn: state.attn, cross }, u, b)),
            },
        }
    }

    pub fn set_cross_static(&self, t: &mut Tape, state: &mut BlockState, xa: Tensor, max_actx: usize) -> (r:
        Result<usize, Error>)
        requires
            self.wf(),
            old(state).wf(),
            old(t).has(xa),
        ensures
            final(t).grew(*old(t)),
            final(state).wf(),
            match self.crossed(
                old(t).on(),
                xa@,
                max_actx,
                *old(state),
                old(t).buffers(),
                old(t).bufs(),
            ) {
                Err(s) => {
                    &&& r == Err::<usize, Error>(s.error)
                    &&& *final(state) == s.state
                    &&& final(t).buffers() == s.buffers
                    &&& final(t).bufs() == s.bufs
                },
                Ok((n, s, u, b)) => {
                    &&& r == Ok::<usize, Error>(n)
                    &&& *final(state) == s
                    &&& final(t).buffers() == u
                    &&& final(t).bufs() == b
                },
            },
    {
        match self.cross_attn {
            Some(c) => c.attn.set_cross_static(t, &mut state.cross, xa, max_actx),
            None => Ok(0),
        }
    }

    /// One token on the static buffers.
    #[verifier::opaque]
    pub open spec fn step_pass(
        self,
        device: Device,
        x: Val,
        pos: Buf,
        mask: Buf,
        cross_mask: Buf,
        state: BlockState,
        bufs: Bufs,
    ) -> Result<(Val, Bufs), Refused> {
        match self.attn.self_step(device, self.attn_ln.apply(x), pos, mask, state.attn, bufs) {
            Err(e) => Err(e),
            Ok((a, b)) => {
                let x = bin(Op::Add, x, a);
                match self.cross_attn {
                    None => Ok((self.fed(x), b)),
                    Some(c) => match c.attn.cross_step(
                        c.ln.apply(x),
                        cross_mask,
                        state.cross,
                        b,
                    ) {
                        Err(error) => Err(Refused { error, bufs: b }),
                        Ok(y) => Ok((self.fed(bin(Op::Add, x, y)), b)),
                    },
                }
            },
        }
    }

    pub fn forward_static(
        &self,
        t: &mut Tape,
        state: &BlockState,
        x: Tensor,
        pos: Buf,
        mask: Buf,
        cross_mask: Buf,
    ) -> (r: Result<Tensor, Error>)
        requires
            self.wf(),
            old(t).has(x),
        ensures
            final(t).wrote(*old(t)),
            match self.step_pass(old(t).on(), x@, pos, mask, cross_mask, *state, old(t).bufs()) {
                Err(s) => r == Err::<Tensor, Error>(s.error) && final(t).bufs() == s.bufs,
                Ok((out, b)) => {
                    &&& r is Ok
                    &&& final(t).has(r->Ok_0)
                    &&& r->Ok_0@ == out
                    &&& final(t).bufs() == b
                },
            },
    {
        reveal(ResidualAttentionBlock::step_pass);
        let y = self.attn_ln.forward(t, x);
        let a = self.attn.forward_static_self(t, &state.attn, y, pos, mask)?;
        let x = t.bin(Op::Add, x, a);
        let x = match self.cross_attn {
            None => x,
            Some(c) => {
                let y = c.ln.forward(t, x);
                let b = c.attn.forward_static_cross(t, &state.cross, y, cross_mask)?;
                t.bin(Op::Add, x, b)
            },
        };
        Ok(self.feed(t, x))
    }

    /// Everything kept of an encoder output forgotten.
    pub open spec fn reset(self, state: BlockState) -> BlockState {
        BlockState {
            attn: state.attn.forgotten(),
            cross: if self.cross_attn is Some { state.cross.forgotten() } else { state.cross },
        }
    }

    pub fn reset_kv_cache(&self, state: &mut BlockState)
        requires
            old(state).wf(),
        ensures
            *final(state) == self.reset(*old(state)),
            final(state).wf(),
    {
        MultiHeadAttention::reset_kv_cache(&mut state.attn);
        if self.cross_attn.is_some() {
            MultiHeadAttention::reset_kv_cache(&mut state.cross);
        }
    }
}

/// Blocks with what they keep.
#[derive(Debug)]
pub struct Stack {
    pub blocks: Vec<ResidualAttentionBlock>,
    pub states: Vec<BlockState>,
}

/// A value on its way through the blocks, with everything a pass changes.
pub struct Flow {
    pub x: Val,
    pub bufs: Bufs,
    pub buffers: Seq<Buf>,
    pub states: Seq<BlockState>,
}

/// Why a pass stopped, and what it leaves behind.
pub struct FlowStop {
    pub error: Error,
    pub bufs: Bufs,
    pub buffers: Seq<Buf>,
    pub states: Seq<BlockState>,
}

impl Stack {
    pub open spec fn wf(self) -> bool {
        &&& self.blocks.len() == self.states.len()
        &&& forall|i: int| 0 <= i < self.blocks.len() ==> (#[trigger] self.blocks[i]).wf()
        &&& forall|i: int| 0 <= i < self.states.len() ==> (#[trigger] self.states[i]).wf()
    }

    /// Only the states differ.
    pub open spec fn same_blocks(self, before: Stack) -> bool {
        self.blocks == before.blocks && self.states.len() == before.states.len()
    }

    pub open spec fn asked(
        self,
        l: Loader,
        n: usize,
        n_state: usize,
        n_head: usize,
        ca: bool,
        vb: Seq<char>,
    ) -> bool {
        &&& self.blocks.len() == n
        &&& forall|i: int|
            0 <= i < self.blocks.len() ==> (#[trigger] self.blocks[i]).asked(
                l,
                n_state,
                n_head,
                ca,
                pp(pp(vb, "layers"@), decimal(i as nat)),
            )
    }

    pub fn load(
        l: &mut Loader,
        n: usize,
        n_state: usize,
        n_head: usize,
        ca: bool,
        vb: &VarPath,
    ) -> (r: Stack)
        requires
            n_head > 0,
        ensures
            final(l).grew(*old(l)),
            final(l).added(*old(l), n * ResidualAttentionBlock::tensors(ca)),
            r.asked(*final(l), n, n_state, n_head, ca, vb@),
            r.wf(),
            forall|i: int| 0 <= i < r.states.len() ==> #[trigger] r.states[i] == BlockState::new(),
    {
        let vb_l = vb.pp("layers");
        let mut blocks: Vec<ResidualAttentionBlock> = Vec::new();
        let mut states: Vec<BlockState> = Vec::new();
        let mut i: usize = 0;
        while i < n
            invariant
                i <= n,
                n_head > 0,
                l.grew(*old(l)),
                l.added(*old(l), i * ResidualAttentionBlock::tensors(ca)),
                blocks.len() == i,
                states.len() == i,
                forall|j: int| 0 <= j < i ==> #[trigger] states[j] == BlockState::new(),
                forall|j: int|
                    0 <= j < i ==> (#[trigger] blocks[j]).asked(
                        *l,
                        n_state,
                        n_head,
                        ca,
                        pp(vb_l@, decimal(j as nat)),
                    ),
            decreases n - i,
        {
            let ghost before = *l;
            let block = ResidualAttentionBlock::load(l, n_state, n_head, ca, &vb_l.pp_index(i));
            proof {
                assert forall|j: int| 0 <= j < i implies (#[trigger] blocks[j]).asked(
                    *l,
                    n_state,
                    n_head,
                    ca,
                    pp(vb_l@, decimal(j as nat)),
                ) by {
                    lemma_block_grows(
                        blocks[j],
                        before,
                        *l,
                        n_state,
                        n_head,
                        ca,
                        pp(vb_l@, decimal(j as nat)),
                    );
                }
            }
            blocks.push(block);
            states.push(BlockState::new());
            i += 1;
        }
        Stack { blocks, states }
    }

    /// The first `n` blocks.
    pub open spec fn run(self, p: PassVal, f: Flow, n: int) -> Result<Flow, FlowStop>
        decreases n,
    {
        if n <= 0 {
            Ok(f)
        } else {
            match self.run(p, f, n - 1) {
                Err(e) => Err(e),
                Ok(g) => match self.blocks[n - 1].pass(
                    g.x,
                    p,
                    g.states[n - 1],
                    g.buffers,
                    g.bufs,
                ) {
                    Err(s) => Err(
                        FlowStop {
                            error: s.error,
                            bufs: s.bufs,
                            buffers: s.buffers,
                            states: g.states.update(n - 1, s.state),
                        },
                    ),
                    Ok(o) => Ok(
                        Flow {
                            x: o.out,
                            bufs: o.bufs,
                            buffers: o.buffers,
                            states: g.states.update(n - 1, o.state),
                        },
                    ),
                },
            }
        }
    }

    /// The first block that fails decides.
    proof fn lemma_run_stops(self, p: PassVal, f: Flow, i: int, n: int)
        requires
            i <= n,
        ensures
            self.run(p, f, i) is Err ==> self.run(p, f, n) == self.run(p, f, i),
        decreases n - i,
    {
        if i < n {
            self.lemma_run_stops(p, f, i, n - 1);
        }
    }

    pub fn forward(
        &mut self,
        t: &mut Tape,
        x: Tensor,
        xa: Option<Tensor>,
        mask: Option<Tensor>,
        flush_kv_cache: bool,
    ) -> (r: Result<Tensor, Error>)
        requires
            old(self).wf(),
            old(t).has(x),
            old(t).has_opt(xa),
            old(t).has_opt(mask),
        ensures
            final(t).grew(*old(t)),
            final(self).wf(),
            final(self).same_blocks(*old(self)),
            match old(self).run(
                (PassVal { xa: opt_val(xa), mask: opt_val(mask), flush: flush_kv_cache }),
                (Flow {
                    x: x@,
                    bufs: old(t).bufs(),
                    buffers: old(t).buffers(),
                    states: old(self).states@,
                }),
                old(self).blocks.len() as int,
            ) {
                Err(s) => {
                    &&& r == Err::<Tensor, Error>(s.error)
                    &&& final(t).bufs() == s.bufs
                    &&& final(t).buffers() == s.buffers
                    &&& final(self).states@ == s.states
                },
                Ok(g) => {
                    &&& r is Ok
                    &&& final(t).has(r->Ok_0)
                    &&& r->Ok_0@ == g.x
                    &&& final(t).bufs() == g.bufs
                    &&& final(t).buffers() == g.buffers
                    &&& final(self).states@ == g.states
                },
            },
    {
        let ghost p = PassVal { xa: opt_val(xa), mask: opt_val(mask), flush: flush_kv_cache };
        let ghost f = Flow {
            x: x@,
            bufs: t.bufs(),
            buffers: t.buffers(),
            states: self.states@,
        };
        let ghost total = self.blocks.len() as int;
        let mut cur = x;
        let mut i: usize = 0;
        while i < self.blocks.len()
            invariant
                i <= self.blocks.len(),
                total == self.blocks.len(),
                self.wf(),
                self.same_blocks(*old(self)),
                t.grew(*old(t)),
                t.has(cur),
                t.has_opt(xa),
                t.has_opt(mask),
                p == (PassVal { xa: opt_val(xa), mask: opt_val(mask), flush: flush_kv_cache }),
                f == (Flow {
                    x: x@,
                    bufs: old(t).bufs(),
                    buffers: old(t).buffers(),
                    states: old(self).states@,
                }),
                old(self).run(p, f, i as int) == Ok::<Flow, FlowStop>(
                    Flow {
                        x: cur@,
                        bufs: t.bufs(),
                        buffers: t.buffers(),
                        states: self.states@,
                    },
                ),
            decreases self.blocks.len() - i,
        {
            let ghost before = self.states@;
            assert(self.blocks[i as int].wf());
            assert(self.states[i as int].wf());
            proof {
                old(self).lemma_run_stops(p, f, i + 1, total);
            }
            let block = self.blocks[i];
            let passed = block.forward(t, &mut self.states[i], cur, xa, mask, flush_kv_cache);
            assert(self.states@ =~= before.update(i as int, self.states@[i as int]));
            cur = passed?;
            i += 1;
        }
        Ok(cur)
    }

    /// The first `n` blocks have their static buffers.
    pub open spec fn enabled(
        self,
        max_seq: usize,
        dtype: DType,
        buffers: Seq<Buf>,
        bufs: Bufs,
        n: int,
    ) -> (Seq<BlockState>, Seq<Buf>, Bufs)
        decreases n,
    {
        if n <= 0 {
            (self.states@, buffers, bufs)
        } else {
            let (s, u, b) = self.enabled(max_seq, dtype, buffers, bufs, n - 1);
            let (own, u, b) = self.blocks[n - 1].enabled(s[n - 1], max_seq, dtype, u, b);
            (s.update(n - 1, own), u, b)
        }
    }

    pub fn enable_static(&mut self, t: &mut Tape, max_seq: usize, dtype: DType)
        requires
            old(self).wf(),
        ensures
            final(self).wf(),
            final(self).same_blocks(*old(self)),
            final(t).grew(*old(t)),
            (final(self).states@, final(t).buffers(), final(t).bufs()) == old(self).enabled(
                max_seq,
                dtype,
                old(t).buffers(),
                old(t).bufs(),
                old(self).blocks.len() as int,
            ),
    {
        let mut i: usize = 0;
        while i < self.blocks.len()
            invariant
                i <= self.blocks.len(),
                self.wf(),
                self.same_blocks(*old(self)),
                t.grew(*old(t)),
                (self.states@, t.buffers(), t.bufs()) == old(self).enabled(
                    max_seq,
                    dtype,
                    old(t).buffers(),
                    old(t).bufs(),
                    i as int,
                ),
            decreases self.blocks.len() - i,
        {
            let ghost before = self.states@;
            assert(self.blocks[i as int].wf());
            assert(self.states[i as int].wf());
            let block = self.blocks[i];
            block.enable_static(t, &mut self.states[i], max_seq, dtype);
            assert(self.states@ =~= before.update(i as int, self.states@[i as int]));
            i += 1;
        }
    }

    /// The encoder output in the static buffers of the first `n` blocks, with
    /// the number of positions that the last block with any took in.
    pub open spec fn crossed(
        self,
        device: Device,
        xa: Val,
        max_actx: usize,
        buffers: Seq<Buf>,
        bufs: Bufs,
        n: int,
    ) -> Result<(usize, Seq<BlockState>, Seq<Buf>, Bufs), FlowStop>
        decreases n,
    {
        if n <= 0 {
            Ok((0, self.states@, buffers, bufs))
        } else {
            match self.crossed(device, xa, max_actx, buffers, bufs, n - 1) {
                Err(e) => Err(e),
                Ok((len, s, u, b)) => match self.blocks[n - 1].crossed(
                    device,
                    xa,
                    max_actx,
                    s[n - 1],
                    u,
                    b,
                ) {
                    Err(x) => Err(
                        FlowStop {
                            error: x.error,
                            bufs: x.bufs,
                            buffers: x.buffers,
                            states: s.update(n - 1, x.state),
                        },
                    ),
                    Ok((m, own, u, b)) => Ok(
                        (if m > 0 { m } else { len }, s.update(n - 1, own), u, b),
                    ),
                },
            }
        }
    }

    proof fn lemma_cross_stops(
        self,
        device: Device,
        xa: Val,
        max_actx: usize,
        buffers: Seq<Buf>,
        bufs: Bufs,
        i: int,
        n: int,
    )
        requires
            i <= n,
        ensures
            self.crossed(device, xa, max_actx, buffers, bufs, i) is Err ==> self.crossed(
                device,
                xa,
                max_actx,
                buffers,
                bufs,
                n,
            ) == self.crossed(device, xa, max_actx, buffers, bufs, i),
        decreases n - i,
    {
        if i < n {
            self.lemma_cross_stops(device, xa, max_actx, buffers, bufs, i, n - 1);
        }
    }

    pub fn set_cross_static(&mut self, t: &mut Tape, xa: Tensor, max_actx: usize) -> (r: Result<
        usize,
        Error,
    >)
        requires
            old(self).wf(),
            old(t).has(xa),
        ensures
            final(self).wf(),
            final(self).same_blocks(*old(self)),
            final(t).grew(*old(t)),
            match old(self).crossed(
                old(t).on(),
                xa@,
                max_actx,
                old(t).buffers(),
                old(t).bufs(),
                old(self).blocks.len() as int,
            ) {
                Err(x) => {
                    &&& r == Err::<usize, Error>(x.error)
                    &&& final(self).states@ == x.states
                    &&& final(t).buffers() == x.buffers
                    &&& final(t).bufs() == x.bufs
                },
                Ok((n, s, u, b)) => {
                    &&& r == Ok::<usize, Error>(n)
                    &&& final(self).states@ == s
                    &&& final(t).buffers() == u
                    &&& final(t).bufs() == b
                },
            },
    {
        let ghost device = t.on();
        let ghost (u0, b0) = (t.buffers(), t.bufs());
        let ghost total = self.blocks.len() as int;
        let mut n: usize = 0;
        let mut i: usize = 0;
        while i < self.blocks.len()
            invariant
                i <= self.blocks.len(),
                total == self.blocks.len(),
                self.wf(),
                self.same_blocks(*old(self)),
                t.grew(*old(t)),
                t.has(xa),
                device == t.on(),
                device == old(t).on(),
                u0 == old(t).buffers(),
                b0 == old(t).bufs(),
                old(self).crossed(device, xa@, max_actx, u0, b0, i as int) == Ok::<
                    (usize, Seq<BlockState>, Seq<Buf>, Bufs),
                    FlowStop,
                >((n, self.states@, t.buffers(), t.bufs())),
            decreases self.blocks.len() - i,
        {
            let ghost before = self.states@;
            assert(self.blocks[i as int].wf());
            assert(self.states[i as int].wf());
            proof {
                old(self).lemma_cross_stops(device, xa@, max_actx, u0, b0, i + 1, total);
            }
            let block = self.blocks[i];
            let taken = block.set_cross_static(t, &mut self.states[i], xa, max_actx);
            assert(self.states@ =~= before.update(i as int, self.states@[i as int]));
            let m: usize = taken?;
            if m > 0 {
                n = m;
            }
            i += 1;
        }
        Ok(n)
    }

    /// One token through the first `n` blocks, on the static buffers.
    pub open spec fn step(
        self,
        device: Device,
        x: Val,
        pos: Buf,
        mask: Buf,
        cross_mask: Buf,
        bufs: Bufs,
        n: int,
    ) -> Result<(Val, Bufs), Refused>
        decreases n,
    {
        if n <= 0 {
            Ok((x, bufs))
        } else {
            match self.step(device, x, pos, mask, cross_mask, bufs, n - 1) {
                Err(e) => Err(e),
                Ok((y, b)) => self.blocks[n - 1].step_pass(
                    device,
                    y,
                    pos,
                    mask,
                    cross_mask,
                    self.states[n - 1],
                    b,
                ),
            }
        }
    }

    proof fn lemma_step_stops(
        self,
        device: Device,
        x: Val,
        pos: Buf,
        mask: Buf,
        cross_mask: Buf,
        bufs: Bufs,
        i: int,
        n: int,
    )
        requires
            i <= n,
        ensures
            self.step(device, x, pos, mask, cross_mask, bufs, i) is Err ==> self.step(
                device,
                x,
                pos,
                mask,
                cross_mask,
                bufs,
                n,
            ) == self.step(device, x, pos, mask, cross_mask, bufs, i),
        decreases n - i,
    {
        if i < n {
            self.lemma_step_stops(device, x, pos, mask, cross_mask, bufs, i, n - 1);
        }
    }

    pub fn forward_static(&self, t: &mut Tape, x: Tensor, pos: Buf, mask: Buf, cross_mask: Buf) -> (r:
        Result<Tensor, Error>)
        requires
            self.wf(),
            old(t).has(x),
        ensures
            final(t).wrote(*old(t)),
            match self.step(
                old(t).on(),
                x@,
                pos,
                mask,
                cross_mask,
                old(t).bufs(),
                self.blocks.len() as int,
            ) {
                Err(s) => r == Err::<Tensor, Error>(s.error) && final(t).bufs() == s.bufs,
                Ok((y, b)) => {
                    &&& r is Ok
                    &&& final(t).has(r->Ok_0)
                    &&& r->Ok_0@ == y
                    &&& final(t).bufs() == b
                },
            },
    {
        let ghost device = t.on();
        let ghost b0 = t.bufs();
        let ghost total = self.blocks.len() as int;
        let mut cur = x;
        let mut i: usize = 0;
        while i < self.blocks.len()
            invariant
                i <= self.blocks.len(),
                total == self.blocks.len(),
                self.wf(),
                t.wrote(*old(t)),
                t.has(cur),
                device == t.on(),
                device == old(t).on(),
                b0 == old(t).bufs(),
                self.step(device, x@, pos, mask, cross_mask, b0, i as int) == Ok::<
                    (Val, Bufs),
                    Refused,
                >((cur@, t.bufs())),
            decreases self.blocks.len() - i,
        {
            assert(self.blocks[i as int].wf());
            proof {
                self.lemma_step_stops(device, x@, pos, mask, cross_mask, b0, i + 1, total);
            }
            cur = self.blocks[i].forward_static(t, &self.states[i], cur, pos, mask, cross_mask)?;
            i += 1;
        }
        Ok(cur)
    }

    pub open spec fn reset(self) -> Seq<BlockState> {
        Seq::new(self.states.len() as nat, |i: int| self.blocks[i].reset(self.states[i]))
    }

    /// Forgets everything kept of an encoder output.
    pub fn reset_kv_cache(&mut self)
        requires
            old(self).wf(),
        ensures
            final(self).wf(),
            final(self).same_blocks(*old(self)),
            final(self).states@ == old(self).reset(),
    {
        let mut i: usize = 0;
        while i < self.blocks.len()
            invariant
                i <= self.blocks.len(),
                self.wf(),
                old(self).wf(),
                self.same_blocks(*old(self)),
                forall|j: int| 0 <= j < i ==> #[trigger] self.states[j] == old(self).reset()[j],
                forall|j: int|
                    i <= j < self.states.len() ==> #[trigger] self.states[j]
                        == old(self).states[j],
            decreases self.blocks.len() - i,
        {
            assert(self.states[i as int].wf());
            let block = self.blocks[i];
            block.reset_kv_cache(&mut self.states[i]);
            i += 1;
        }
        assert(self.states@ =~= old(self).reset());
    }
}

/// What was asked for stays asked for.
pub proof fn lemma_block_grows(
    b: ResidualAttentionBlock,
    before: Loader,
    l: Loader,
    n_state: usize,
    n_head: usize,
    ca: bool,
    vb: Seq<char>,
)
    requires
        b.asked(before, n_state, n_head, ca, vb),
        l.grew(before),
    ensures
        b.asked(l, n_state, n_head, ca, vb),
{
}

} // verus!
