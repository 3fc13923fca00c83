//! What rows that a mask blocks mean for a step.
use vstd::prelude::*;

use crate::dtype::{DType, Device};
use crate::gemma4::attention::Attention;
use crate::gemma4::context::{LayerKv, Shared, StaticCtx};
use crate::positions::{
    attended, blocked_score, counts_alike, law_blocked_keys_do_not_matter, lemma_cell_bin,
    lemma_cell_product, lemma_cell_un, lemma_laid_out, lemma_mask_row, lemma_row_written, Meaning,
};
use crate::qwen3_5::pieces::lemma_same_proj;
use crate::rows::cell_blocked;
use crate::shape::{d2, d3, sat_product};
use crate::static_decode::counted;
use crate::tape::{bin, held, un, Buf, Bufs, Op, Val};

verus! {

/// The mask row of a layer.
pub open spec fn mask_of(f: Attention, ctx: StaticCtx) -> Buf {
    if f.is_sliding {
        ctx.mask_sliding
    } else {
        ctx.mask_global
    }
}

/// The scores of a step over a whole buffer of keys.
pub open spec fn step_scores(f: Attention, q: Val, k: Val, mask: Val, max_seq: usize) -> Val {
    let q3 = un(Op::Reshape(d3(f.num_kv_heads, f.num_kv_groups, f.head_dim)), q);
    bin(
        Op::BroadcastAdd,
        un(Op::ToDType(DType::F32), bin(Op::MatMul, q3, un(Op::Transpose(1, 2), k))),
        un(Op::Reshape(d3(1, 1, max_seq)), mask),
    )
}

/// The score of key `j`, with its cell of the mask.
pub(crate) proof fn lemma_step_score<V>(
    m: Meaning<V>,
    f: Attention,
    q: Val,
    k: Val,
    mask: Val,
    max_seq: usize,
    j: int,
)
    requires
        cell_blocked(mask.term, j) is Some,
    ensures
        m.cell_at(step_scores(f, q, k, mask, max_seq).term, 0, j) == (m.bin)(
            Op::BroadcastAdd,
            (m.score)(m.at(q.term, 0), m.at(k.term, j)),
            (m.cell)(cell_blocked(mask.term, j)->0),
        ),
{
    let grouped = Op::Reshape(d3(f.num_kv_heads, f.num_kv_groups, f.head_dim));
    let q3 = un(grouped, q);
    let product = bin(Op::MatMul, q3, un(Op::Transpose(1, 2), k));
    let (to, flat) = (Op::ToDType(DType::F32), Op::Reshape(d3(1, 1, max_seq)));
    lemma_laid_out(m, grouped, q, 0);
    lemma_cell_product(m, q3, Op::Transpose(1, 2), k, 0, j);
    lemma_cell_un(m, to, product, 0, j);
    lemma_cell_un(m, flat, mask, 0, j);
    lemma_mask_row(m, mask, 0, j);
    lemma_cell_bin(m, Op::BroadcastAdd, un(to, product), un(flat, mask), 0, j);
}

/// Rows of the static buffers that the mask keeps from the query do not change a
/// step: two runs whose buffers agree on the open rows give the same output, and
/// in each run only the row of the position changes.
pub proof fn law_blocked_rows_do_not_matter<V>(
    m: Meaning<V>,
    f: Attention,
    device: Device,
    x: Val,
    ctx: StaticCtx,
    kv: LayerKv,
    buffers: Seq<Buf>,
    a: Bufs,
    b: Bufs,
    shared: Shared,
)
    requires
        m.masks(),
        !f.is_kv_shared,
        kv.statics is Some,
        ({
            let (k, v) = (kv.statics->0.k.id as int, kv.statics->0.v.id as int);
            let pos = ctx.pos.id as int;
            let mask = mask_of(f, ctx).id as int;
            &&& k != v && k != pos && v != pos && k != mask && v != mask
            &&& a[pos] == b[pos] && a[mask] == b[mask]
            &&& counted(a[pos]) is Some
            &&& m.len(a[k]) == ctx.max_seq && m.len(a[v]) == ctx.max_seq
            &&& m.len(b[k]) == ctx.max_seq && m.len(b[v]) == ctx.max_seq
            &&& forall|j: int|
                0 <= j < ctx.max_seq ==> (#[trigger] cell_blocked(a[mask], j)) is Some
            &&& forall|j: int|
                0 <= j < ctx.max_seq && j != counted(a[pos])->0 && #[trigger] cell_blocked(
                    a[mask],
                    j,
                ) == Some(false) ==> m.at(a[k], j) == m.at(b[k], j) && m.at(a[v], j) == m.at(
                    b[v],
                    j,
                )
        }),
    ensures
        match (
            f.step_pass(device, x, ctx, kv, buffers, a, shared),
            f.step_pass(device, x, ctx, kv, buffers, b, shared),
        ) {
            (Ok(p), Ok(q)) => {
                let (k, v) = (kv.statics->0.k.id as int, kv.statics->0.v.id as int);
                &&& m.same(p.out, 0, q.out, 0)
                &&& forall|j: int|
                    j != counted(a[ctx.pos.id as int])->0 ==> #[trigger] m.at(p.bufs[k], j) == m.at(
                        a[k],
                        j,
                    )
                &&& forall|j: int|
                    j != counted(a[ctx.pos.id as int])->0 ==> #[trigger] m.at(p.bufs[v], j) == m.at(
                        a[v],
                        j,
                    )
            },
            (Err(d), Err(e)) => d.error == e.error,
            _ => false,
        },
{
    let p = kv.statics->0;
    let at = held(a, ctx.pos);
    let n = counted(at.term)->0;
    let row = Op::Reshape(d2(f.num_kv_heads, f.head_dim));
    let q = f.rotary().at_rows(f.query(x, 1, 1), at);
    let k = un(row, f.rotary().at_rows(f.key(x, 1, 1), at));
    let v = un(row, f.value(x, 1, 1));
    assert(at == held(b, ctx.pos));
    let mask = held(a, mask_of(f, ctx));
    if let Ok(r) = f.step_pass(device, x, ctx, kv, buffers, a, shared) {
        let s = f.step_pass(device, x, ctx, kv, buffers, b, shared)->Ok_0;
        let (ka, va) = (held(r.bufs, p.k), held(r.bufs, p.v));
        let (kb, vb) = (held(s.bufs, p.k), held(s.bufs, p.v));
        assert forall|j: int|
            #![trigger m.at(ka.term, j)]
            #![trigger m.at(va.term, j)]
            true implies m.at(ka.term, j) == (if j == n {
            m.at(k.term, 0)
        } else {
            m.at(a[p.k.id as int], j)
        }) && m.at(va.term, j) == (if j == n {
            m.at(v.term, 0)
        } else {
            m.at(a[p.v.id as int], j)
        }) by {
            lemma_row_written(m, a[p.k.id as int], k.term, at.term, j);
            lemma_row_written(m, a[p.v.id as int], v.term, at.term, j);
        }
        lemma_row_written(m, a[p.v.id as int], v.term, at.term, 0);
        lemma_row_written(m, b[p.v.id as int], v.term, at.term, 0);
        let (sa, sb) = (
            step_scores(f, q, ka, mask, ctx.max_seq),
            step_scores(f, q, kb, mask, ctx.max_seq),
        );
        assert forall|j: int| 0 <= j < ctx.max_seq implies #[trigger] counts_alike(
            m,
            (sa, va),
            (sb, vb),
            0,
            j,
        ) by {
            assert(cell_blocked(mask.term, j) is Some);
            lemma_row_written(m, b[p.k.id as int], k.term, at.term, j);
            lemma_row_written(m, b[p.v.id as int], v.term, at.term, j);
            lemma_step_score(m, f, q, ka, mask, ctx.max_seq, j);
            lemma_step_score(m, f, q, kb, mask, ctx.max_seq, j);
            assert(m.at(ka.term, j) == m.at(ka.term, j));
            assert(m.at(va.term, j) == m.at(va.term, j));
            if cell_blocked(mask.term, j) == Some(true) {
                let (x, y) = (
                    (m.score)(m.at(q.term, 0), m.at(ka.term, j)),
                    (m.score)(m.at(q.term, 0), m.at(kb.term, j)),
                );
                assert(m.cell_at(sa.term, 0, j) == (m.bin)(Op::BroadcastAdd, x, (m.cell)(true)));
                assert(m.cell_at(sb.term, 0, j) == (m.bin)(Op::BroadcastAdd, y, (m.cell)(true)));
                assert(blocked_score(m, m.cell_at(sa.term, 0, j)));
                assert(blocked_score(m, m.cell_at(sb.term, 0, j)));
            }
        }
        law_blocked_keys_do_not_matter(m, Some(ka.dtype), (sa, va), (sb, vb), 0);
        let (oa, ob) = (
            attended(Some(ka.dtype), sa, va),
            attended(Some(ka.dtype), sb, vb),
        );
        let wide = Op::Reshape(d3(1, 1, sat_product(f.num_heads, f.head_dim)));
        lemma_laid_out(m, wide, oa, 0);
        lemma_laid_out(m, wide, ob, 0);
        lemma_same_proj(m, f.o_proj, un(wide, oa), 0, un(wide, ob), 0);
        assert(r.out == f.o_proj.apply(un(wide, oa)));
        assert(s.out == f.o_proj.apply(un(wide, ob)));
    }
}

} // verus!
