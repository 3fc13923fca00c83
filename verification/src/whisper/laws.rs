//! What holds of whole passes.
use vstd::prelude::*;

use crate::dtype::{DType, Device};
use crate::error::Error;
use crate::static_decode::{counted, law_counting_adds, mask_row_effect};
use crate::tape::{bin, held, un, un_term, Buf, Bufs, Op, Term, Val};
use crate::whisper::block::{BlockState, Flow, FlowStop, PassVal, ResidualAttentionBlock, Stack};
use crate::whisper::model::{AudioEncoder, TextDecoder};

verus! {

/// No block of the stack keeps self-attention keys or values in buffer `id`.
pub open spec fn apart(states: Seq<BlockState>, id: int) -> bool {
    forall|i: int| 0 <= i < states.len() ==> kept_apart(#[trigger] states[i], id)
}

pub open spec fn kept_apart(s: BlockState, id: int) -> bool {
    s.attn.static_kv matches Some(p) ==> p.k.id != id && p.v.id != id
}

proof fn lemma_step_frame(
    s: Stack,
    device: Device,
    x: Val,
    pos: Buf,
    mask: Buf,
    cross_mask: Buf,
    bufs: Bufs,
    n: int,
    id: int,
)
    requires
        0 <= n <= s.blocks.len(),
        s.blocks.len() == s.states.len(),
        apart(s.states@, id),
    ensures
        match s.step(device, x, pos, mask, cross_mask, bufs, n) {
            Ok((y, b)) => b[id] == bufs[id],
            Err(x) => x.bufs[id] == bufs[id],
        },
    decreases n,
{
    if n > 0 {
        lemma_step_frame(s, device, x, pos, mask, cross_mask, bufs, n - 1, id);
        assert(kept_apart(s.states@[n - 1], id));
        reveal(ResidualAttentionBlock::step_pass);
    }
}

/// A decode step that goes through advances the position by exactly one, and a
/// refused one leaves it; both leave alone every other buffer that belongs to no
/// block, but the causal row.
pub proof fn law_step_advances(d: TextDecoder, device: Device, token: Val, bufs: Bufs, id: int)
    requires
        d.wf(),
        d.static_ctx is Some,
        apart(d.stack.states@, id),
        id != d.static_ctx->0.mask.id,
    ensures
        match d.step_pass(device, token, bufs) {
            Ok((y, b)) => b[id] == (if id == d.static_ctx->0.pos.id {
                un_term(Op::AddU32(1), bufs[id])
            } else {
                bufs[id]
            }),
            Err(x) => x.bufs[id] == bufs[id],
        },
{
    let ctx = d.static_ctx->0;
    if let Ok(b) = mask_row_effect(device, bufs, ctx.mask, ctx.pos, 0) {
        lemma_step_frame(
            d.stack,
            device,
            d.placed(token, held(b, ctx.pos)),
            ctx.pos,
            ctx.mask,
            ctx.cross_mask,
            b,
            d.stack.blocks.len() as int,
            id,
        );
    }
}

/// Positions add up: a step that is read at position `p` leaves `p + 1` for the
/// next.
pub proof fn law_positions_add_up(d: TextDecoder, device: Device, token: Val, bufs: Bufs, p: int)
    requires
        d.wf(),
        d.static_ctx is Some,
        apart(d.stack.states@, d.static_ctx->0.pos.id as int),
        d.static_ctx->0.pos.id != d.static_ctx->0.mask.id,
        0 <= p < u32::MAX,
        counted(bufs[d.static_ctx->0.pos.id as int]) == Some(p),
    ensures
        d.step_pass(device, token, bufs) matches Ok((y, b)) ==> counted(
            b[d.static_ctx->0.pos.id as int],
        ) == Some(p + 1),
{
    law_step_advances(d, device, token, bufs, d.static_ctx->0.pos.id as int);
    law_counting_adds(bufs[d.static_ctx->0.pos.id as int], 1);
}

/// Blocks without cross-attention.
pub open spec fn plain_stack(s: Stack) -> bool {
    forall|i: int| 0 <= i < s.blocks.len() ==> (#[trigger] s.blocks[i]).cross_attn is None
}

proof fn lemma_plain_run(s: Stack, p: PassVal, q: PassVal, f: Flow, n: int)
    requires
        0 <= n <= s.blocks.len(),
        s.blocks.len() == f.states.len(),
        plain_stack(s),
        p.mask == q.mask,
    ensures
        s.run(p, f, n) == s.run(q, f, n),
        match s.run(p, f, n) {
            Ok(g) => g.bufs == f.bufs && g.buffers == f.buffers && g.states == f.states,
            Err(x) => x.bufs == f.bufs && x.buffers == f.buffers && x.states == f.states,
        },
    decreases n,
{
    if n > 0 {
        lemma_plain_run(s, p, q, f, n - 1);
        reveal(ResidualAttentionBlock::pass);
        assert(s.blocks[n - 1].cross_attn is None);
        assert(f.states.update(n - 1, f.states[n - 1]) =~= f.states);
    }
}

/// The encoder keeps nothing: a pass leaves what its blocks hold, and every
/// buffer, as it was, whether it is told to flush or not, and whether it goes
/// through or not.
pub proof fn law_encoder_keeps_nothing(
    e: AudioEncoder,
    x: Val,
    flush: bool,
    other: bool,
    buffers: Seq<Buf>,
    bufs: Bufs,
)
    requires
        e.wf(),
        plain_stack(e.stack),
    ensures
        e.pass(x, flush, buffers, bufs) == e.pass(x, other, buffers, bufs),
        match e.pass(x, flush, buffers, bufs) {
            Ok(o) => o.bufs == bufs && o.buffers == buffers && o.states == e.stack.states@,
            Err(s) => s.bufs == bufs && s.buffers == buffers && s.states == e.stack.states@,
        },
{
    lemma_plain_run(
        e.stack,
        PassVal { xa: None, mask: None, flush },
        PassVal { xa: None, mask: None, flush: other },
        Flow { x: e.frames(x), bufs, buffers, states: e.stack.states@ },
        e.stack.blocks.len() as int,
    );
}

/// Nothing of an encoder output is kept.
pub open spec fn forgot(states: Seq<BlockState>) -> bool {
    forall|i: int| 0 <= i < states.len() ==> !(#[trigger] states[i]).cross.cache.filled
}

/// The parts of two flows that a pass hands on agree.
pub open spec fn agree(f: Result<Flow, FlowStop>, g: Result<Flow, FlowStop>) -> bool {
    match (f, g) {
        (Ok(f), Ok(g)) => f.x == g.x,
        (Err(d), Err(e)) => d.error == e.error,
        _ => false,
    }
}

proof fn lemma_unread_caches(
    s: Stack,
    p: PassVal,
    q: PassVal,
    f: Flow,
    g: Flow,
    n: int,
)
    requires
        0 <= n <= s.blocks.len(),
        f.states.len() == s.blocks.len(),
        g.states.len() == s.blocks.len(),
        f.x == g.x,
        p.xa == q.xa,
        p.mask == q.mask,
        p.flush || forgot(f.states),
        q.flush || forgot(g.states),
    ensures
        agree(s.run(p, f, n), s.run(q, g, n)),
        s.run(p, f, n) matches Ok(h) ==> h.states.len() == s.blocks.len() && forall|i: int|
            n <= i < s.blocks.len() ==> #[trigger] h.states[i] == f.states[i],
        s.run(q, g, n) matches Ok(h) ==> h.states.len() == s.blocks.len() && forall|i: int|
            n <= i < s.blocks.len() ==> #[trigger] h.states[i] == g.states[i],
    decreases n,
{
    if n > 0 {
        lemma_unread_caches(s, p, q, f, g, n - 1);
        reveal(ResidualAttentionBlock::pass);
        assert(p.flush || !f.states[n - 1].cross.cache.filled);
        assert(q.flush || !g.states[n - 1].cross.cache.filled);
    }
}

/// Flushing forgets: what a decoder computes after a flush depends on nothing
/// that it read before, and is what a decoder computes that was reset.
pub proof fn law_flush_forgets(
    d: TextDecoder,
    e: TextDecoder,
    x: Val,
    xa: Val,
    a: (Seq<Buf>, Bufs),
    b: (Seq<Buf>, Bufs),
)
    requires
        d.wf(),
        e == (TextDecoder { stack: e.stack, ..d }),
        e.stack.same_blocks(d.stack),
        forgot(e.stack.states@),
    ensures
        match (d.pass(x, xa, true, a.0, a.1), e.pass(x, xa, false, b.0, b.1)) {
            (Ok(o), Ok(p)) => o.out == p.out,
            (Err(m), Err(n)) => m.error == n.error,
            _ => false,
        },
{
    let p = PassVal { xa: Some(xa), mask: Some(d.causal_mask()), flush: true };
    let q = PassVal { xa: Some(xa), mask: Some(d.causal_mask()), flush: false };
    let f = Flow { x: d.embedded(x), bufs: a.1, buffers: a.0, states: d.stack.states@ };
    let g = Flow { x: d.embedded(x), bufs: b.1, buffers: b.0, states: e.stack.states@ };
    lemma_unread_caches(d.stack, p, q, f, g, d.stack.blocks.len() as int);
    lemma_same_run(d.stack, e.stack, q, g, d.stack.blocks.len() as int);
}

proof fn lemma_same_run(s: Stack, r: Stack, p: PassVal, f: Flow, n: int)
    requires
        s.blocks == r.blocks,
    ensures
        s.run(p, f, n) == r.run(p, f, n),
    decreases n,
{
    if n > 0 {
        lemma_same_run(s, r, p, f, n - 1);
    }
}

/// A reset forgets.
pub proof fn law_reset_forgets(s: Stack)
    requires
        s.wf(),
        forall|i: int| 0 <= i < s.blocks.len() ==> (#[trigger] s.blocks[i]).cross_attn is Some,
    ensures
        forgot(s.reset()),
{
    assert forall|i: int| 0 <= i < s.reset().len() implies !(#[trigger] s.reset()[i]).cross.cache.filled by {
        assert(s.blocks[i].cross_attn is Some);
    }
}

/// Every block has the encoder output's keys and values.
pub open spec fn remembers(s: Stack, states: Seq<BlockState>) -> bool {
    forall|i: int|
        0 <= i < s.blocks.len() ==> (#[trigger] states[i]).cross.cache.filled
            && s.blocks[i].cross_attn is Some
}

proof fn lemma_remembered_run(s: Stack, p: PassVal, q: PassVal, f: Flow, n: int)
    requires
        0 <= n <= s.blocks.len(),
        f.states.len() == s.blocks.len(),
        remembers(s, f.states),
        p.xa is Some,
        q.xa is Some,
        p.mask == q.mask,
        !p.flush,
        !q.flush,
    ensures
        s.run(p, f, n) == s.run(q, f, n),
        s.run(p, f, n) matches Ok(g) ==> g.states == f.states && g.bufs == f.bufs && g.buffers
            == f.buffers,
    decreases n,
{
    if n > 0 {
        lemma_remembered_run(s, p, q, f, n - 1);
        reveal(ResidualAttentionBlock::pass);
        assert(f.states[n - 1].cross.cache.filled && s.blocks[n - 1].cross_attn is Some);
        assert(f.states.update(n - 1, f.states[n - 1]) =~= f.states);
    }
}

/// The encoder output is projected once: a decoder that has seen one and is not
/// told to flush answers from what it kept, whatever it is handed.
pub proof fn law_encoder_output_is_kept(
    d: TextDecoder,
    x: Val,
    xa: Val,
    other: Val,
    buffers: Seq<Buf>,
    bufs: Bufs,
)
    requires
        d.wf(),
        remembers(d.stack, d.stack.states@),
    ensures
        d.pass(x, xa, false, buffers, bufs) == d.pass(x, other, false, buffers, bufs),
        d.pass(x, xa, false, buffers, bufs) matches Ok(o) ==> o.bufs == bufs && o.buffers
            == buffers && o.states == d.stack.states@,
{
    let mask = Some(d.causal_mask());
    lemma_remembered_run(
        d.stack,
        PassVal { xa: Some(xa), mask, flush: false },
        PassVal { xa: Some(other), mask, flush: false },
        Flow { x: d.embedded(x), bufs, buffers, states: d.stack.states@ },
        d.stack.blocks.len() as int,
    );
}

/// Once an encoder output is prepared, the device holds its length less one, and
/// the length row is the one that opens the columns up to there; an output that
/// does not fit is refused.
pub proof fn law_length_mask(d: TextDecoder, device: Device, xa: Val, buffers: Seq<Buf>, bufs: Bufs)
    requires
        d.wf(),
        d.static_ctx is Some,
        d.static_ctx->0.cross_len.id != d.static_ctx->0.cross_mask.id,
    ensures
        d.prepared(device, xa, buffers, bufs) matches Ok((s, u, b)) ==> {
            let ctx = d.static_ctx->0;
            let n = d.stack.crossed(
                device,
                xa,
                ctx.max_actx,
                buffers,
                bufs,
                d.stack.blocks.len() as int,
            )->Ok_0.0;
            &&& n <= ctx.max_actx
            &&& b[ctx.cross_len.id as int] == Term::Leaf(
                Op::U32((if n > 1 { n - 1 } else { 0 }) as u32),
            )
            &&& b[ctx.cross_mask.id as int] == un_term(
                Op::MaskRow { window: 0 },
                b[ctx.cross_len.id as int],
            )
        },
{
    lemma_crossed_fits(
        d.stack,
        device,
        xa,
        d.static_ctx->0.max_actx,
        buffers,
        bufs,
        d.stack.blocks.len() as int,
    );
}

/// Some block attends to the encoder output.
pub open spec fn crosses(s: Stack, n: int) -> bool {
    exists|i: int| 0 <= i < n && (#[trigger] s.blocks[i]).cross_attn is Some
}

/// An encoder output that does not fit is refused, and everything stays as it
/// was: the length and the row that masks it, keys and values, and what the
/// blocks keep.
pub proof fn law_long_output_changes_nothing(
    d: TextDecoder,
    device: Device,
    xa: Val,
    buffers: Seq<Buf>,
    bufs: Bufs,
)
    requires
        d.wf(),
        d.static_ctx is Some,
        xa.shape.rank == 3,
        xa.shape.d1 > d.static_ctx->0.max_actx,
        crosses(d.stack, d.stack.blocks.len() as int),
    ensures
        d.prepared(device, xa, buffers, bufs) matches Err(x) && {
            &&& x.error == (Error::ExceedsCross {
                len: xa.shape.d1,
                capacity: d.static_ctx->0.max_actx,
            })
            &&& x.bufs == bufs
            &&& x.buffers == buffers
            &&& x.states == d.stack.states@
        },
{
    lemma_long_output(
        d.stack,
        device,
        xa,
        d.static_ctx->0.max_actx,
        buffers,
        bufs,
        d.stack.blocks.len() as int,
    );
}

proof fn lemma_long_output(
    s: Stack,
    device: Device,
    xa: Val,
    max_actx: usize,
    buffers: Seq<Buf>,
    bufs: Bufs,
    n: int,
)
    requires
        s.wf(),
        0 <= n <= s.blocks.len(),
        xa.shape.rank == 3,
        xa.shape.d1 > max_actx,
    ensures
        match s.crossed(device, xa, max_actx, buffers, bufs, n) {
            Ok((len, states, u, b)) => {
                &&& !crosses(s, n)
                &&& states == s.states@
                &&& u == buffers
                &&& b == bufs
            },
            Err(x) => {
                &&& crosses(s, n)
                &&& x.error == (Error::ExceedsCross { len: xa.shape.d1, capacity: max_actx })
                &&& x.bufs == bufs
                &&& x.buffers == buffers
                &&& x.states == s.states@
            },
        },
    decreases n,
{
    if n > 0 {
        lemma_long_output(s, device, xa, max_actx, buffers, bufs, n - 1);
        assert(s.states@.update(n - 1, s.states@[n - 1]) =~= s.states@);
        assert(crosses(s, n) <==> crosses(s, n - 1) || s.blocks[n - 1].cross_attn is Some) by {
            if crosses(s, n) && !crosses(s, n - 1) {
                let i = choose|i: int|
                    0 <= i < n && (#[trigger] s.blocks[i]).cross_attn is Some;
                assert(i == n - 1);
            }
            if crosses(s, n - 1) {
                let i = choose|i: int|
                    0 <= i < n - 1 && (#[trigger] s.blocks[i]).cross_attn is Some;
                assert(s.blocks[i].cross_attn is Some);
            }
        }
        if let Some(c) = s.blocks[n - 1].cross_attn {
            let k = c.attn.key.apply(xa);
            let v = c.attn.value.apply(xa);
            assert(k.shape.rank == 3 && k.shape.d1 == xa.shape.d1 && v.shape.rank == 3) by {
                reveal(un);
                reveal(bin);
            }
            assert(c.attn.headed(k).shape.d2 == xa.shape.d1) by {
                reveal(un);
            }
        }
    }
}

proof fn lemma_crossed_fits(
    s: Stack,
    device: Device,
    xa: Val,
    max_actx: usize,
    buffers: Seq<Buf>,
    bufs: Bufs,
    n: int,
)
    ensures
        s.crossed(device, xa, max_actx, buffers, bufs, n) matches Ok((len, _, _, _)) ==> len
            <= max_actx,
    decreases n,
{
    if n > 0 {
        lemma_crossed_fits(s, device, xa, max_actx, buffers, bufs, n - 1);
    }
}

/// Turning the static path on a second time makes nothing new.
pub proof fn law_enabling_twice(
    s: Stack,
    again: Stack,
    max_seq: usize,
    more: usize,
    dtype: DType,
    u: (Seq<Buf>, Bufs),
    v: (Seq<Buf>, Bufs),
)
    requires
        s.wf(),
        again.blocks == s.blocks,
        again.states@ == s.enabled(max_seq, dtype, u.0, u.1, s.blocks.len() as int).0,
    ensures
        again.enabled(more, dtype, v.0, v.1, s.blocks.len() as int) == (again.states@, v.0, v.1),
{
    lemma_enabled_settles(s, max_seq, dtype, u, s.blocks.len() as int);
    lemma_settled_stay(again, more, dtype, v, s.blocks.len() as int);
}

proof fn lemma_enabled_settles(s: Stack, max_seq: usize, dtype: DType, u: (Seq<Buf>, Bufs), n: int)
    requires
        s.wf(),
        0 <= n <= s.blocks.len(),
    ensures
        ({
            let once = s.enabled(max_seq, dtype, u.0, u.1, n).0;
            &&& once.len() == s.states.len()
            &&& forall|i: int| 0 <= i < n ==> (#[trigger] once[i]).attn.static_kv is Some
        }),
    decreases n,
{
    if n > 0 {
        lemma_enabled_settles(s, max_seq, dtype, u, n - 1);
    }
}

proof fn lemma_settled_stay(s: Stack, max_seq: usize, dtype: DType, u: (Seq<Buf>, Bufs), n: int)
    requires
        0 <= n <= s.blocks.len(),
        s.states.len() == s.blocks.len(),
        forall|i: int| 0 <= i < n ==> (#[trigger] s.states@[i]).attn.static_kv is Some,
    ensures
        s.enabled(max_seq, dtype, u.0, u.1, n) == (s.states@, u.0, u.1),
    decreases n,
{
    if n > 0 {
        lemma_settled_stay(s, max_seq, dtype, u, n - 1);
        assert(s.states@[n - 1].attn.static_kv is Some);
        assert(s.states@.update(n - 1, s.states@[n - 1]) =~= s.states@);
    }
}

} // verus!
