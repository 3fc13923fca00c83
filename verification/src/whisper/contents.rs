//! What the encoder and the decoder do to the contents of a position.
use vstd::prelude::*;

use crate::contents::{
    law_layer_norm_of_each_position, lemma_at_bin, lemma_at_proj, lemma_at_un, lemma_listens,
};
use crate::dtype::Device;
use crate::masks::square_cells;
use crate::positions::{
    attended, blocked_score, lemma_cell_bin, lemma_cell_corner, lemma_cell_mask, lemma_cell_matmul,
    lemma_counted_row, lemma_laid_out, lemma_looked_up, Meaning,
};
use crate::rows::cell_blocked;
use crate::static_decode::{counted, mask_row_effect, Refused};
use crate::tape::{bin, held, leaf, mask_val, un, Buf, Bufs, Op, Scalar, Val};
use crate::whisper::agreement::{
    lemma_headed, lemma_joined, lemma_square_cell, lemma_step_sees, row_item, scale_of,
};
use crate::whisper::attention::{MhaState, MultiHeadAttention};
use crate::whisper::block::{BlockState, Flow, FlowStop, PassVal, ResidualAttentionBlock, Stack};
use crate::whisper::model::{AudioEncoder, TextDecoder};

verus! {

/// What frame `i` holds when it enters the first block: the convolved frame `i`
/// plus row `i` of the position table.
pub proof fn law_frame_enters_with_its_position<V>(m: Meaning<V>, e: AudioEncoder, x: Val, i: int)
    ensures
        ({
            let (f, g) = (e.conv1, e.conv2);
            let first = Op::Conv1d {
                weight: f.weight,
                bias: f.bias,
                padding: f.padding,
                stride: f.stride,
            };
            let second = Op::Conv1d {
                weight: g.weight,
                bias: g.bias,
                padding: g.padding,
                stride: g.stride,
            };
            let convolved = un(Op::Gelu, un(second, un(Op::Gelu, un(first, x))));
            m.at(e.frames(x).term, i) == (m.bin)(
                Op::BroadcastAdd,
                m.at(convolved.term, i),
                (m.row)(e.positional_embedding, i),
            )
        }),
{
    let y = un(Op::Gelu, e.conv2.apply(un(Op::Gelu, e.conv1.apply(x))));
    let swap = Op::Transpose(1, 2);
    let len = un(swap, y).shape.d1;
    let rows = un(Op::Narrow { dim: 0, start: 0, len }, leaf(Op::Param(e.positional_embedding)));
    lemma_laid_out(m, swap, y, i);
    lemma_looked_up(m, e.positional_embedding, 0, len, i);
    lemma_at_bin(m, Op::BroadcastAdd, un(swap, y), rows, i);
}

/// Two encoders that differ only in their position tables: what frame `i` of each
/// holds on entry, plus row `i` of the table of the other, is the same.
pub proof fn law_position_tables_can_be_exchanged<V>(
    m: Meaning<V>,
    a: AudioEncoder,
    b: AudioEncoder,
    x: Val,
    i: int,
)
    requires
        a.conv1 == b.conv1 && a.conv2 == b.conv2,
        forall|v: V, s: V, t: V|
            #[trigger] (m.bin)(Op::BroadcastAdd, (m.bin)(Op::BroadcastAdd, v, s), t) == (m.bin)(
                Op::BroadcastAdd,
                (m.bin)(Op::BroadcastAdd, v, t),
                s,
            ),
    ensures
        (m.bin)(
            Op::BroadcastAdd,
            m.at(a.frames(x).term, i),
            (m.row)(b.positional_embedding, i),
        ) == (m.bin)(
            Op::BroadcastAdd,
            m.at(b.frames(x).term, i),
            (m.row)(a.positional_embedding, i),
        ),
{
    law_frame_enters_with_its_position(m, a, x, i);
    law_frame_enters_with_its_position(m, b, x, i);
}

/// What an attention gives a query at position `i` of `x`: the mean of the values
/// by the softmax of the scores, over the keys of `x` up to its own position where
/// there is a mask, else over all keys of the source; and that, projected.
pub proof fn law_attention_of_each_position<V>(
    m: Meaning<V>,
    a: MultiHeadAttention,
    x: Val,
    xa: Option<Val>,
    causal: bool,
    n_ctx: usize,
    flush: bool,
    state: MhaState,
    kept: (Seq<Buf>, Bufs),
    i: int,
    item: spec_fn(int) -> (V, V),
)
    requires
        m.masks(),
        a.wf(),
        xa is Some ==> flush || !state.cache.filled,
        ({
            let source = if let Some(y) = xa {
                y
            } else {
                x
            };
            &&& a.query.apply(x).shape.rank == 3 && a.query.apply(x).shape.d2 == a.n_state
            &&& a.key.apply(source).shape.rank == 3 && a.value.apply(source).shape.rank == 3
            &&& 0 <= m.len(source.term)
            &&& causal ==> 0 <= i < m.len(source.term) <= n_ctx
            &&& forall|j: int|
                0 <= j < m.len(source.term) ==> #[trigger] item(j) == ({
                    let s = Op::MulScalar(Scalar::PowNegQuarter((a.n_state / a.n_head) as usize));
                    let (v, w) = (m.at(x.term, i), m.at(source.term, j));
                    (
                        (m.score)(
                            (m.un)(s, m.projected(a.query, v)),
                            (m.un)(s, m.projected(a.key, w)),
                        ),
                        m.projected(a.value, w),
                    )
                })
        }),
    ensures
        ({
            let source = if let Some(y) = xa {
                y
            } else {
                x
            };
            let seen = if causal {
                i + 1
            } else {
                m.len(source.term)
            };
            let mask = if causal {
                Some(mask_val(n_ctx, n_ctx, square_cells(n_ctx, None)))
            } else {
                None::<Val>
            };
            &&& a.pass(x, xa, mask, flush, state, kept.0, kept.1) matches Ok(o)
            &&& m.at(o.out.term, i) == m.projected(
                a.out,
                (m.mean)(m.taken(item, 0, seen, m.nothing)),
            )
        }),
{
    let source = if let Some(y) = xa {
        y
    } else {
        x
    };
    let mask = if causal {
        Some(mask_val(n_ctx, n_ctx, square_cells(n_ctx, None)))
    } else {
        None::<Val>
    };
    let (q, k, v) = (a.query.apply(x), a.key.apply(source), a.value.apply(source));
    let seen = if causal {
        i + 1
    } else {
        m.len(source.term)
    };
    let scale = Op::MulScalar(Scalar::PowNegQuarter((a.n_state / a.n_head) as usize));
    let (hq, hk, hv) = (a.headed(q), a.headed(k), a.headed(v));
    let turned = Op::Transpose(2, 3);
    let (qa, ka) = (un(scale, hq), un(scale, un(turned, hk)));
    let product = bin(Op::MatMul, qa, ka);
    let len = q.shape.d1;
    let corner = un(
        Op::Narrow { dim: 1, start: 0, len },
        un(Op::Narrow { dim: 0, start: 0, len }, mask->0),
    );
    let scores = if causal {
        bin(Op::BroadcastAdd, product, corner)
    } else {
        product
    };
    lemma_headed(m, a, q, i);
    lemma_headed(m, a, v, 0);
    lemma_at_proj(m, a.query, x, i);
    lemma_at_proj(m, a.value, source, 0);
    lemma_at_un(m, scale, hq, i);
    assert forall|j: int| 0 <= j < m.len(hv.term) implies (if 0 <= j < seen {
        (m.cell_at(scores.term, i, j), #[trigger] m.at(hv.term, j)) == item(j)
    } else {
        blocked_score(m, m.cell_at(scores.term, i, j))
    }) by {
        lemma_headed(m, a, k, j);
        lemma_headed(m, a, v, j);
        lemma_at_proj(m, a.key, source, j);
        lemma_at_proj(m, a.value, source, j);
        lemma_laid_out(m, turned, hk, j);
        lemma_at_un(m, scale, un(turned, hk), j);
        lemma_cell_matmul(m, qa, ka, i, j);
        let c = item(j).0;
        if causal {
            lemma_cell_corner(m, mask->0, len, i, j);
            lemma_cell_bin(m, Op::BroadcastAdd, product, corner, i, j);
            lemma_cell_mask(m, n_ctx, n_ctx, square_cells(n_ctx, None), i, j);
            lemma_square_cell(n_ctx, i, j);
            if j <= i {
                assert((m.bin)(Op::BroadcastAdd, c, (m.cell)(false)) == c);
            } else {
                assert(m.cell_at(scores.term, i, j) == (m.bin)(
                    Op::BroadcastAdd,
                    c,
                    (m.cell)(true),
                ));
            }
        }
    }
    lemma_listens(m, None, scores, hv, i, item, 0, seen);
    let wv = attended(None, scores, hv);
    lemma_joined(m, wv, i);
    lemma_at_proj(m, a.out, MultiHeadAttention::joined(wv), i);
    assert(a.attended(q, k, v, mask) == MultiHeadAttention::joined(wv));
}

/// What a step of attention gives its query over rows of keys and values behind a
/// mask that shows those up to `n`.
pub proof fn law_step_attention<V>(
    m: Meaning<V>,
    a: MultiHeadAttention,
    q: Val,
    k: Val,
    v: Val,
    mask: Val,
    n: int,
    item: spec_fn(int) -> (V, V),
)
    requires
        m.masks(),
        0 <= n < m.len(v.term),
        forall|j: int| #[trigger] cell_blocked(mask.term, j) == Some(n < j),
        forall|j: int|
            #[trigger] item(j) == ({
                let s = Op::MulScalar(Scalar::PowNegQuarter((a.n_state / a.n_head) as usize));
                let score = (m.score)((m.un)(s, m.at(q.term, 0)), m.at(k.term, j));
                ((m.un)(s, score), m.at(v.term, j))
            }),
    ensures
        m.at(a.step_attended(q, k, v, mask).term, 0) == m.projected(
            a.out,
            (m.mean)(m.taken(item, 0, n + 1, m.nothing)),
        ),
{
    lemma_step_sees(m, a, q, k, v, mask, n);
    let own = row_item(m, scale_of(a), m.at(q.term, 0), k.term, v.term);
    assert(own =~= item);
    let w = choose|w: Val|
        #![trigger a.out.apply(w)]
        a.step_attended(q, k, v, mask) == a.out.apply(w) && m.at(w.term, 0) == (m.mean)(
            m.taken(own, 0, n + 1, m.nothing),
        );
    lemma_at_proj(m, a.out, w, 0);
}

/// The feed-forward branch on the norm of a position is added to it.
pub proof fn law_feed_forward_is_added<V>(m: Meaning<V>, l: ResidualAttentionBlock, x: Val, i: int)
    ensures
        ({
            let n = l.mlp_ln;
            let v = m.at(x.term, i);
            let normed = (m.un)(
                Op::LayerNorm(n.weight, n.bias, Scalar::F32(0x3ee4_f8b5_88e3_68f1)),
                v,
            );
            let hidden = (m.un)(Op::Gelu, m.projected(l.mlp_linear1, normed));
            m.at(l.fed(x).term, i) == (m.bin)(Op::Add, v, m.projected(l.mlp_linear2, hidden))
        }),
{
    let y = l.mlp_ln.apply(x);
    let h = l.mlp_linear1.apply(y);
    law_layer_norm_of_each_position(m, l.mlp_ln, x, i);
    lemma_at_proj(m, l.mlp_linear1, y, i);
    lemma_at_un(m, Op::Gelu, h, i);
    lemma_at_proj(m, l.mlp_linear2, un(Op::Gelu, h), i);
    lemma_at_bin(m, Op::Add, x, l.mlp_linear2.apply(un(Op::Gelu, h)), i);
}

/// A block adds to each position what attention gives on the normed input, then, where
/// it has cross-attention, what that gives on the norm of the sum, then what the
/// feed-forward branch gives on the norm of all that.
pub proof fn law_block_adds_its_branches<V>(
    m: Meaning<V>,
    l: ResidualAttentionBlock,
    x: Val,
    p: PassVal,
    state: BlockState,
    kept: (Seq<Buf>, Bufs),
    i: int,
)
    requires
        l.pass(x, p, state, kept.0, kept.1) is Ok,
    ensures
        ({
            let eps = Scalar::F32(0x3ee4_f8b5_88e3_68f1);
            let plus = |a: V, b: V| (m.bin)(Op::Add, a, b);
            let out = l.pass(x, p, state, kept.0, kept.1)->Ok_0;
            let normed = un(Op::LayerNorm(l.attn_ln.weight, l.attn_ln.bias, eps), x);
            let heard = l.attn.pass(normed, None, p.mask, p.flush, state.attn, kept.0, kept.1);
            let a = heard->Ok_0;
            let once = plus(m.at(x.term, i), m.at(a.out.term, i));
            let h = match l.cross_attn {
                None => once,
                Some(c) => ({
                    let sum = bin(Op::Add, x, a.out);
                    let y = un(Op::LayerNorm(c.ln.weight, c.ln.bias, eps), sum);
                    let b = c.attn.pass(y, p.xa, None, p.flush, state.cross, a.buffers, a.bufs);
                    plus(once, m.at(b->Ok_0.out.term, i))
                }),
            };
            let n = l.mlp_ln;
            let hidden = m.projected(
                l.mlp_linear1,
                (m.un)(Op::LayerNorm(n.weight, n.bias, eps), h),
            );
            m.at(out.out.term, i) == plus(
                h,
                m.projected(l.mlp_linear2, (m.un)(Op::Gelu, hidden)),
            )
        }),
{
    reveal(ResidualAttentionBlock::pass);
    let y = l.attn_ln.apply(x);
    let a = l.attn.pass(y, None, p.mask, p.flush, state.attn, kept.0, kept.1)->Ok_0;
    let once = bin(Op::Add, x, a.out);
    lemma_at_bin(m, Op::Add, x, a.out, i);
    match l.cross_attn {
        None => {
            law_feed_forward_is_added(m, l, once, i);
        },
        Some(c) => {
            let z = c.ln.apply(once);
            let b = c.attn.pass(z, p.xa, None, p.flush, state.cross, a.buffers, a.bufs)->Ok_0;
            lemma_at_bin(m, Op::Add, once, b.out, i);
            law_feed_forward_is_added(m, l, bin(Op::Add, once, b.out), i);
        },
    }
}

/// A step through a block adds the same branches, each over the static buffers.
pub proof fn law_step_adds_its_branches<V>(
    m: Meaning<V>,
    l: ResidualAttentionBlock,
    device: Device,
    x: Val,
    pos: Buf,
    mask: Buf,
    cross_mask: Buf,
    state: BlockState,
    bufs: Bufs,
    i: int,
)
    requires
        l.step_pass(device, x, pos, mask, cross_mask, state, bufs) is Ok,
    ensures
        ({
            let eps = Scalar::F32(0x3ee4_f8b5_88e3_68f1);
            let plus = |a: V, b: V| (m.bin)(Op::Add, a, b);
            let out = l.step_pass(device, x, pos, mask, cross_mask, state, bufs)->Ok_0.0;
            let normed = un(Op::LayerNorm(l.attn_ln.weight, l.attn_ln.bias, eps), x);
            let (a, held) = l.attn.self_step(device, normed, pos, mask, state.attn, bufs)->Ok_0;
            let once = plus(m.at(x.term, i), m.at(a.term, i));
            let h = match l.cross_attn {
                None => once,
                Some(c) => ({
                    let y = un(Op::LayerNorm(c.ln.weight, c.ln.bias, eps), bin(Op::Add, x, a));
                    let b = c.attn.cross_step(y, cross_mask, state.cross, held)->Ok_0;
                    plus(once, m.at(b.term, i))
                }),
            };
            let n = l.mlp_ln;
            let hidden = m.projected(
                l.mlp_linear1,
                (m.un)(Op::LayerNorm(n.weight, n.bias, eps), h),
            );
            m.at(out.term, i) == plus(h, m.projected(l.mlp_linear2, (m.un)(Op::Gelu, hidden)))
        }),
{
    reveal(ResidualAttentionBlock::step_pass);
    let y = l.attn_ln.apply(x);
    let (a, held) = l.attn.self_step(device, y, pos, mask, state.attn, bufs)->Ok_0;
    let once = bin(Op::Add, x, a);
    lemma_at_bin(m, Op::Add, x, a, i);
    match l.cross_attn {
        None => {
            law_feed_forward_is_added(m, l, once, i);
        },
        Some(c) => {
            let b = c.attn.cross_step(c.ln.apply(once), cross_mask, state.cross, held)->Ok_0;
            lemma_at_bin(m, Op::Add, once, b, i);
            law_feed_forward_is_added(m, l, bin(Op::Add, once, b), i);
        },
    }
}

/// The last projections of a block give nothing.
pub open spec fn silent<V>(m: Meaning<V>, l: ResidualAttentionBlock, z: V) -> bool {
    &&& forall|v: V| #[trigger] m.projected(l.attn.out, v) == z
    &&& l.cross_attn matches Some(c) ==> forall|v: V| #[trigger] m.projected(c.attn.out, v) == z
    &&& forall|v: V| #[trigger] m.projected(l.mlp_linear2, v) == z
}

/// A block whose branches give nothing passes its input on.
pub proof fn law_silent_branches_pass_the_input_on<V>(
    m: Meaning<V>,
    l: ResidualAttentionBlock,
    x: Val,
    p: PassVal,
    state: BlockState,
    kept: (Seq<Buf>, Bufs),
    z: V,
    i: int,
)
    requires
        m.adds_nothing(z),
        silent(m, l, z),
        l.pass(x, p, state, kept.0, kept.1) is Ok,
    ensures
        m.at(l.pass(x, p, state, kept.0, kept.1)->Ok_0.out.term, i) == m.at(x.term, i),
{
    law_block_adds_its_branches(m, l, x, p, state, kept, i);
    reveal(ResidualAttentionBlock::pass);
    let v = m.at(x.term, i);
    assert((m.bin)(Op::Add, v, z) == v);
    let y = l.attn_ln.apply(x);
    let a = l.attn.pass(y, None, p.mask, p.flush, state.attn, kept.0, kept.1)->Ok_0;
    let kv = l.attn.keys_values(y, None, p.flush, state.attn, kept.0, kept.1);
    lemma_at_proj(m, l.attn.out, l.attn.attended(l.attn.query.apply(y), kv.k, kv.v, p.mask), i);
    if let Some(c) = l.cross_attn {
        let w = c.ln.apply(bin(Op::Add, x, a.out));
        let kv = c.attn.keys_values(w, p.xa, p.flush, state.cross, a.buffers, a.bufs);
        lemma_at_proj(m, c.attn.out, c.attn.attended(c.attn.query.apply(w), kv.k, kv.v, None), i);
    }
}

/// Silent blocks pass on what enters the first of them.
proof fn lemma_silent_run<V>(m: Meaning<V>, s: Stack, p: PassVal, f: Flow, n: int, z: V, i: int)
    requires
        m.adds_nothing(z),
        n <= s.blocks.len(),
        forall|j: int| 0 <= j < s.blocks.len() ==> silent(m, #[trigger] s.blocks[j], z),
        s.run(p, f, n) is Ok,
    ensures
        m.at(s.run(p, f, n)->Ok_0.x.term, i) == m.at(f.x.term, i),
    decreases n,
{
    if n > 0 {
        lemma_silent_run(m, s, p, f, n - 1, z, i);
        let g = s.run(p, f, n - 1)->Ok_0;
        law_silent_branches_pass_the_input_on(
            m,
            s.blocks[n - 1],
            g.x,
            p,
            g.states[n - 1],
            (g.buffers, g.bufs),
            z,
            i,
        );
    }
}

/// An encoder whose blocks give nothing encodes each frame as the norm of the
/// convolved frame plus its row of the position table.
pub proof fn law_silent_encoder_norms_placed_frames<V>(
    m: Meaning<V>,
    e: AudioEncoder,
    x: Val,
    flush: bool,
    kept: (Seq<Buf>, Bufs),
    z: V,
    i: int,
)
    requires
        m.adds_nothing(z),
        forall|j: int|
            0 <= j < e.stack.blocks.len() ==> silent(m, #[trigger] e.stack.blocks[j], z),
        e.pass(x, flush, kept.0, kept.1) is Ok,
    ensures
        ({
            let convolved = un(Op::Gelu, e.conv2.apply(un(Op::Gelu, e.conv1.apply(x))));
            let n = e.ln_post;
            m.at(e.pass(x, flush, kept.0, kept.1)->Ok_0.out.term, i) == (m.un)(
                Op::LayerNorm(n.weight, n.bias, Scalar::F32(0x3ee4_f8b5_88e3_68f1)),
                (m.bin)(
                    Op::BroadcastAdd,
                    m.at(convolved.term, i),
                    (m.row)(e.positional_embedding, i),
                ),
            )
        }),
{
    let p = PassVal { xa: None, mask: None, flush };
    let f = Flow { x: e.frames(x), bufs: kept.1, buffers: kept.0, states: e.stack.states@ };
    let n = e.stack.blocks.len() as int;
    lemma_silent_run(m, e.stack, p, f, n, z, i);
    law_frame_enters_with_its_position(m, e, x, i);
    law_layer_norm_of_each_position(m, e.ln_post, e.stack.run(p, f, n)->Ok_0.x, i);
}

/// The encoder runs all its blocks, unmasked, on frames that hold the convolved
/// frame plus the row of the position table, and norms what comes out.
pub proof fn law_encoder_runs_on_placed_frames<V>(
    m: Meaning<V>,
    e: AudioEncoder,
    x: Val,
    flush: bool,
    kept: (Seq<Buf>, Bufs),
)
    requires
        e.pass(x, flush, kept.0, kept.1) is Ok,
    ensures
        exists|f: Flow|
            #![trigger e.stack.run(
                PassVal { xa: None, mask: None, flush },
                f,
                e.stack.blocks.len() as int,
            )]
            {
                let convolved = un(Op::Gelu, e.conv2.apply(un(Op::Gelu, e.conv1.apply(x))));
                let p = PassVal { xa: None, mask: None, flush };
                &&& forall|i: int|
                    m.at(f.x.term, i) == (m.bin)(
                        Op::BroadcastAdd,
                        m.at(convolved.term, i),
                        #[trigger] (m.row)(e.positional_embedding, i),
                    )
                &&& e.stack.run(p, f, e.stack.blocks.len() as int) matches Ok(g)
                &&& forall|i: int|
                    m.at(e.pass(x, flush, kept.0, kept.1)->Ok_0.out.term, i) == (m.un)(
                        Op::LayerNorm(
                            e.ln_post.weight,
                            e.ln_post.bias,
                            Scalar::F32(0x3ee4_f8b5_88e3_68f1),
                        ),
                        #[trigger] m.at(g.x.term, i),
                    )
            },
{
    let p = PassVal { xa: None, mask: None, flush };
    let f = Flow { x: e.frames(x), bufs: kept.1, buffers: kept.0, states: e.stack.states@ };
    let g = e.stack.run(p, f, e.stack.blocks.len() as int)->Ok_0;
    let convolved = un(Op::Gelu, e.conv2.apply(un(Op::Gelu, e.conv1.apply(x))));
    assert forall|i: int| m.at(f.x.term, i) == (m.bin)(
        Op::BroadcastAdd,
        m.at(convolved.term, i),
        #[trigger] (m.row)(e.positional_embedding, i),
    ) by {
        law_frame_enters_with_its_position(m, e, x, i);
    }
    assert forall|i: int| m.at(e.pass(x, flush, kept.0, kept.1)->Ok_0.out.term, i) == (m.un)(
        Op::LayerNorm(
            e.ln_post.weight,
            e.ln_post.bias,
            Scalar::F32(0x3ee4_f8b5_88e3_68f1),
        ),
        #[trigger] m.at(g.x.term, i),
    ) by {
        law_layer_norm_of_each_position(m, e.ln_post, g.x, i);
    }
    assert(e.stack.run(p, f, e.stack.blocks.len() as int) is Ok);
}

/// A token enters the decoder as its embedding plus the row of the position table
/// at its position; in a step, at the position that the device holds.
pub proof fn law_token_enters_with_its_position<V>(
    m: Meaning<V>,
    d: TextDecoder,
    x: Val,
    pos: Val,
    i: int,
)
    ensures
        m.at(d.embedded(x).term, i) == (m.bin)(
            Op::BroadcastAdd,
            (m.un)(Op::Embedding(d.token_embedding), m.at(x.term, i)),
            (m.row)(d.positional_embedding, i),
        ),
        counted(pos.term) matches Some(n) ==> m.at(d.placed(x, pos).term, i) == (m.bin)(
            Op::BroadcastAdd,
            (m.un)(Op::Embedding(d.token_embedding), m.at(x.term, i)),
            (m.row)(d.positional_embedding, n + i),
        ),
{
    let w = d.positional_embedding;
    let emb = un(Op::Embedding(d.token_embedding), x);
    let len = x.shape.last();
    let rows = un(Op::Narrow { dim: 0, start: 0, len }, leaf(Op::Param(w)));
    lemma_at_un(m, Op::Embedding(d.token_embedding), x, i);
    lemma_looked_up(m, w, 0, len, i);
    lemma_at_bin(m, Op::BroadcastAdd, emb, rows, i);
    if counted(pos.term) is Some {
        let row = bin(Op::IndexSelect(0), leaf(Op::Param(w)), pos);
        lemma_counted_row(m, w, pos, i);
        lemma_laid_out(m, Op::Unsqueeze(0), row, i);
        lemma_at_bin(m, Op::BroadcastAdd, emb, un(Op::Unsqueeze(0), row), i);
    }
}

/// A decoder whose blocks give nothing makes of each token the norm of its
/// embedding plus the row of the position table at its position.
pub proof fn law_silent_decoder_norms_placed_tokens<V>(
    m: Meaning<V>,
    d: TextDecoder,
    x: Val,
    xa: Val,
    flush: bool,
    kept: (Seq<Buf>, Bufs),
    z: V,
    i: int,
)
    requires
        m.adds_nothing(z),
        forall|j: int|
            0 <= j < d.stack.blocks.len() ==> silent(m, #[trigger] d.stack.blocks[j], z),
        d.pass(x, xa, flush, kept.0, kept.1) is Ok,
    ensures
        m.at(d.pass(x, xa, flush, kept.0, kept.1)->Ok_0.out.term, i) == (m.un)(
            Op::LayerNorm(d.ln.weight, d.ln.bias, Scalar::F32(0x3ee4_f8b5_88e3_68f1)),
            (m.bin)(
                Op::BroadcastAdd,
                (m.un)(Op::Embedding(d.token_embedding), m.at(x.term, i)),
                (m.row)(d.positional_embedding, i),
            ),
        ),
{
    let p = PassVal { xa: Some(xa), mask: Some(d.causal_mask()), flush };
    let f = Flow { x: d.embedded(x), bufs: kept.1, buffers: kept.0, states: d.stack.states@ };
    let n = d.stack.blocks.len() as int;
    lemma_silent_run(m, d.stack, p, f, n, z, i);
    law_token_enters_with_its_position(m, d, x, x, i);
    law_layer_norm_of_each_position(m, d.ln, d.stack.run(p, f, n)->Ok_0.x, i);
}

/// The decoder runs all its blocks on the placed tokens, attending to the encoder
/// output, behind a mask that keeps query `i` from key `j` exactly if `j` is later.
pub proof fn law_decoder_runs_on_placed_tokens<V>(
    m: Meaning<V>,
    d: TextDecoder,
    x: Val,
    xa: Val,
    flush: bool,
    kept: (Seq<Buf>, Bufs),
)
    requires
        d.pass(x, xa, flush, kept.0, kept.1) is Ok,
    ensures
        exists|f: Flow, mask: Val|
            #![trigger d.stack.run(
                PassVal { xa: Some(xa), mask: Some(mask), flush },
                f,
                d.stack.blocks.len() as int,
            )]
            {
                let p = PassVal { xa: Some(xa), mask: Some(mask), flush };
                &&& forall|i: int|
                    m.at(f.x.term, i) == (m.bin)(
                        Op::BroadcastAdd,
                        (m.un)(Op::Embedding(d.token_embedding), m.at(x.term, i)),
                        #[trigger] (m.row)(d.positional_embedding, i),
                    )
                &&& forall|i: int, j: int|
                    0 <= i < d.n_ctx && 0 <= j < d.n_ctx ==> #[trigger] m.cell_at(mask.term, i, j)
                        == (m.cell)(i < j)
                &&& d.stack.run(p, f, d.stack.blocks.len() as int) matches Ok(g)
                &&& forall|i: int|
                    m.at(d.pass(x, xa, flush, kept.0, kept.1)->Ok_0.out.term, i) == (m.un)(
                        Op::LayerNorm(d.ln.weight, d.ln.bias, Scalar::F32(0x3ee4_f8b5_88e3_68f1)),
                        #[trigger] m.at(g.x.term, i),
                    )
            },
{
    let mask = d.causal_mask();
    let p = PassVal { xa: Some(xa), mask: Some(mask), flush };
    let f = Flow { x: d.embedded(x), bufs: kept.1, buffers: kept.0, states: d.stack.states@ };
    let g = d.stack.run(p, f, d.stack.blocks.len() as int)->Ok_0;
    assert forall|i: int| m.at(f.x.term, i) == (m.bin)(
        Op::BroadcastAdd,
        (m.un)(Op::Embedding(d.token_embedding), m.at(x.term, i)),
        #[trigger] (m.row)(d.positional_embedding, i),
    ) by {
        law_token_enters_with_its_position(m, d, x, x, i);
    }
    assert forall|i: int, j: int|
        0 <= i < d.n_ctx && 0 <= j < d.n_ctx implies #[trigger] m.cell_at(mask.term, i, j) == (
    m.cell)(i < j) by {
        lemma_cell_mask(m, d.n_ctx, d.n_ctx, square_cells(d.n_ctx, None), i, j);
        lemma_square_cell(d.n_ctx, i, j);
    }
    assert forall|i: int| m.at(d.pass(x, xa, flush, kept.0, kept.1)->Ok_0.out.term, i) == (m.un)(
        Op::LayerNorm(d.ln.weight, d.ln.bias, Scalar::F32(0x3ee4_f8b5_88e3_68f1)),
        #[trigger] m.at(g.x.term, i),
    ) by {
        law_layer_norm_of_each_position(m, d.ln, g.x, i);
    }
    assert(d.stack.run(p, f, d.stack.blocks.len() as int) is Ok);
}

/// A step runs all blocks on the token placed where the device says, and norms
/// what comes out.
pub proof fn law_step_runs_on_the_placed_token<V>(
    m: Meaning<V>,
    d: TextDecoder,
    device: Device,
    token: Val,
    bufs: Bufs,
    n: int,
)
    requires
        d.step_pass(device, token, bufs) is Ok,
        d.static_ctx->0.mask.id != d.static_ctx->0.pos.id,
        counted(bufs[d.static_ctx->0.pos.id as int]) == Some(n),
    ensures
        exists|x: Val, b: Bufs|
            #![trigger d.stack.step(
                device,
                x,
                d.static_ctx->0.pos,
                d.static_ctx->0.mask,
                d.static_ctx->0.cross_mask,
                b,
                d.stack.blocks.len() as int,
            )]
            {
                let c = d.static_ctx->0;
                let all = d.stack.blocks.len() as int;
                &&& m.at(x.term, 0) == (m.bin)(
                    Op::BroadcastAdd,
                    (m.un)(Op::Embedding(d.token_embedding), m.at(token.term, 0)),
                    (m.row)(d.positional_embedding, n),
                )
                &&& d.stack.step(device, x, c.pos, c.mask, c.cross_mask, b, all) matches Ok((y, _))
                &&& m.at(d.step_pass(device, token, bufs)->Ok_0.0.term, 0) == (m.un)(
                    Op::LayerNorm(d.ln.weight, d.ln.bias, Scalar::F32(0x3ee4_f8b5_88e3_68f1)),
                    m.at(y.term, 0),
                )
            },
{
    let c = d.static_ctx->0;
    let b = mask_row_effect(device, bufs, c.mask, c.pos, 0)->Ok_0;
    let x = d.placed(token, held(b, c.pos));
    let all = d.stack.blocks.len() as int;
    assert(b[c.pos.id as int] == bufs[c.pos.id as int]);
    law_token_enters_with_its_position(m, d, token, held(b, c.pos), 0);
    let y = d.stack.step(device, x, c.pos, c.mask, c.cross_mask, b, all)->Ok_0.0;
    law_layer_norm_of_each_position(m, d.ln, y, 0);
    assert(d.stack.step(device, x, c.pos, c.mask, c.cross_mask, b, all) is Ok);
}

/// The token table is the head: the logits of a position are its product with the
/// table.
pub proof fn law_logits_use_the_token_table<V>(m: Meaning<V>, d: TextDecoder, x: Val, i: int)
    ensures
        m.cell_at(d.logits(x).term, i, i) == (m.score)(
            m.at(x.term, i),
            (m.un)(Op::BroadcastLeft(x.shape.d0), (m.leaf)(Op::Param(d.token_embedding))),
        ),
{
    let w = leaf(Op::Param(d.token_embedding));
    let wide = un(Op::BroadcastLeft(x.shape.d0), w);
    let turned = un(Op::Transpose(1, 2), wide);
    lemma_at_un(m, Op::BroadcastLeft(x.shape.d0), w, i);
    lemma_laid_out(m, Op::Transpose(1, 2), wide, i);
    lemma_cell_matmul(m, x, turned, i, i);
}

/// Blocks follow each other: a stack of the blocks of two stacks gives what the
/// second gives on what the first gives.
pub proof fn law_blocks_follow_each_other(
    all: Stack,
    first: Stack,
    second: Stack,
    p: PassVal,
    f: Flow,
    n: int,
)
    requires
        all.blocks@ == first.blocks@ + second.blocks@,
        f.states.len() == all.blocks.len(),
        0 <= n <= second.blocks.len(),
    ensures
        ({
            let k = first.blocks.len() as int;
            match first.run(p, f, k) {
                Err(s) => all.run(p, f, k + n) == Err::<Flow, FlowStop>(s),
                Ok(g) => ({
                    let rest = Flow { states: g.states.subrange(k, g.states.len() as int), ..g };
                    match second.run(p, rest, n) {
                        Err(s) => all.run(p, f, k + n) is Err && all.run(p, f, k + n)->Err_0.error
                            == s.error,
                        Ok(h) => {
                            &&& all.run(p, f, k + n) matches Ok(r)
                            &&& r.x == h.x && r.bufs == h.bufs && r.buffers == h.buffers
                            &&& r.states.len() == k + h.states.len()
                            &&& forall|j: int|
                                0 <= j < r.states.len() ==> #[trigger] r.states[j] == (if j < k {
                                    g.states[j]
                                } else {
                                    h.states[j - k]
                                })
                        },
                    }
                }),
            }
        }),
    decreases n,
{
    let k = first.blocks.len() as int;
    lemma_same_start(all, first, p, f, k);
    if n > 0 {
        law_blocks_follow_each_other(all, first, second, p, f, n - 1);
        assert(all.blocks@[k + n - 1] == second.blocks@[n - 1]);
        if let Ok(g) = first.run(p, f, k) {
            let rest = Flow { states: g.states.subrange(k, g.states.len() as int), ..g };
            lemma_states_kept(first, p, f, k);
            if let Ok(h) = second.run(p, rest, n - 1) {
                let r = all.run(p, f, k + n - 1)->Ok_0;
                lemma_states_kept(second, p, rest, n - 1);
                assert(r.states[k + n - 1] == h.states[n - 1]);
            }
        }
    } else {
        lemma_states_kept(first, p, f, k);
    }
}

proof fn lemma_same_start(all: Stack, first: Stack, p: PassVal, f: Flow, n: int)
    requires
        n <= first.blocks.len() <= all.blocks.len(),
        forall|i: int| 0 <= i < first.blocks.len() ==> all.blocks@[i] == #[trigger] first.blocks@[i],
    ensures
        all.run(p, f, n) == first.run(p, f, n),
    decreases n,
{
    if n > 0 {
        lemma_same_start(all, first, p, f, n - 1);
        assert(all.blocks@[n - 1] == first.blocks@[n - 1]);
    }
}

/// As many states after a pass as before.
proof fn lemma_states_kept(s: Stack, p: PassVal, f: Flow, n: int)
    requires
        n <= f.states.len(),
    ensures
        s.run(p, f, n) matches Ok(g) ==> g.states.len() == f.states.len(),
    decreases n,
{
    if n > 0 {
        lemma_states_kept(s, p, f, n - 1);
    }
}

/// The same of steps.
pub proof fn law_steps_follow_each_other(
    all: Stack,
    first: Stack,
    second: Stack,
    device: Device,
    x: Val,
    pos: Buf,
    mask: Buf,
    cross_mask: Buf,
    bufs: Bufs,
    n: int,
)
    requires
        all.blocks@ == first.blocks@ + second.blocks@,
        all.states@ == first.states@ + second.states@,
        first.states.len() == first.blocks.len(),
        second.states.len() == second.blocks.len(),
        -first.blocks.len() <= n <= second.blocks.len(),
    ensures
        ({
            let k = first.blocks.len() as int;
            let whole = all.step(device, x, pos, mask, cross_mask, bufs, k + n);
            if n <= 0 {
                whole == first.step(device, x, pos, mask, cross_mask, bufs, k + n)
            } else {
                whole == (match first.step(device, x, pos, mask, cross_mask, bufs, k) {
                    Err(e) => Err::<(Val, Bufs), Refused>(e),
                    Ok((y, b)) => second.step(device, y, pos, mask, cross_mask, b, n),
                })
            }
        }),
    decreases first.blocks.len() + n,
{
    let k = first.blocks.len() as int;
    if k + n > 0 {
        law_steps_follow_each_other(
            all,
            first,
            second,
            device,
            x,
            pos,
            mask,
            cross_mask,
            bufs,
            n - 1,
        );
        if n > 0 {
            assert(all.blocks@[k + n - 1] == second.blocks@[n - 1]);
            assert(all.states@[k + n - 1] == second.states@[n - 1]);
            reveal_with_fuel(Stack::step, 2);
        } else {
            assert(all.blocks@[k + n - 1] == first.blocks@[k + n - 1]);
            assert(all.states@[k + n - 1] == first.states@[k + n - 1]);
        }
    }
}

/// A stack of one block gives what the block gives.
pub proof fn law_one_block(s: Stack, p: PassVal, f: Flow)
    requires
        s.blocks.len() == 1,
        s.blocks[0].pass(f.x, p, f.states[0], f.buffers, f.bufs) is Ok,
    ensures
        ({
            let o = s.blocks[0].pass(f.x, p, f.states[0], f.buffers, f.bufs)->Ok_0;
            &&& s.run(p, f, 1) matches Ok(g)
            &&& g.x == o.out && g.bufs == o.bufs && g.buffers == o.buffers
            &&& g.states == f.states.update(0, o.state)
        }),
{
    reveal_with_fuel(Stack::run, 2);
}

} // verus!
