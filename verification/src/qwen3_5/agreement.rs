//! What a step and a pass over one token have in common.
use vstd::prelude::*;

use crate::dtype::{DType, Device};
use crate::gathering::{counts, counts_at, lemma_sees, lemma_taken_alike, shows};
use crate::positions::{
    attended, blocked_score, lemma_cell_product, lemma_cell_un, lemma_counted_row, lemma_laid_out,
    lemma_looked_up, lemma_row_written, lemma_same_bin, lemma_same_tri, lemma_same_un, Meaning,
};
use crate::qwen3_5::attention::{repeated, FullAttention, FullKv};
use crate::qwen3_5::layer::QwenStaticCtx;
use crate::qwen3_5::norm::Rotary;
use crate::qwen3_5::rewind::{lemma_step_score, step_scores};
use crate::qwen3_5::spans;
use crate::qwen3_5::spans::{cache_fits, lemma_extents, lemma_view};
use crate::rows::cell_blocked;
use crate::shape::{d3, d4};
use crate::static_decode::{counted, mask_row_effect};
use crate::tape::{bin, held, leaf, tri, un, Buf, Bufs, Op, Scalar, Val, Weight};

verus! {

/// A rotation looked up at the counted position is the rotation there.
proof fn lemma_same_place<V>(m: Meaning<V>, r: Rotary, hd: usize, x: Val, at: Val, n: usize)
    requires
        counted(at.term) == Some(n as int),
        r.rot <= hd,
    ensures
        m.same(r.at_rows(x, at, hd), 0, r.at(x, n, 1, hd), 0),
        r.at_rows(x, at, hd).dtype == x.dtype,
        r.at(x, n, 1, hd).dtype == x.dtype,
{
    let to = Op::ToDType(x.dtype);
    let row = |w: Weight| bin(Op::IndexSelect(0), leaf(Op::Param(w)), at);
    let slice = |w: Weight| un(Op::Narrow { dim: 0, start: n, len: 1 }, leaf(Op::Param(w)));
    lemma_counted_row(m, r.cos, at, 0);
    lemma_counted_row(m, r.sin, at, 0);
    lemma_looked_up(m, r.cos, n, 1, 0);
    lemma_looked_up(m, r.sin, n, 1, 0);
    lemma_same_un(m, to, row(r.cos), 0, slice(r.cos), 0);
    lemma_same_un(m, to, row(r.sin), 0, slice(r.sin), 0);
    let (ca, cb) = (un(to, row(r.cos)), un(to, slice(r.cos)));
    let (sa, sb) = (un(to, row(r.sin)), un(to, slice(r.sin)));
    if r.rot == hd {
        lemma_same_tri(m, Op::RopeInterleaved, (x, ca, sa), 0, (x, cb, sb), 0);
    } else {
        let turn = Op::Narrow { dim: 3, start: 0, len: r.rot };
        let pass = Op::Narrow { dim: 3, start: r.rot, len: (hd - r.rot) as usize };
        let t = un(turn, x);
        lemma_same_tri(m, Op::RopeInterleaved, (t, ca, sa), 0, (t, cb, sb), 0);
        let (ra, rb) = (
            tri(Op::RopeInterleaved, t, ca, sa),
            tri(Op::RopeInterleaved, t, cb, sb),
        );
        lemma_same_bin(m, Op::Cat(3), (ra, un(pass, x)), 0, (rb, un(pass, x)), 0);
    }
    reveal(un);
    reveal(bin);
    reveal(tri);
}

/// Copies for every head of a group score and count as what is copied.
proof fn lemma_copies<V>(m: Meaning<V>, rep: usize, q: V, k: Val, v: Val, j: int)
    requires
        m.pairs_heads(),
    ensures
        (m.score)(q, m.at(repeated(k, rep).term, j)) == (m.score)(q, m.at(k.term, j)),
        forall|g: V, c: V| #[trigger]
            (m.gather)(g, c, m.at(repeated(v, rep).term, j)) == (m.gather)(g, c, m.at(v.term, j)),
        m.len(repeated(v, rep).term) == m.len(v.term),
{
    reveal(un);
    reveal_with_fuel(Meaning::at, 4);
    reveal_with_fuel(Meaning::len, 4);
}

/// A static buffer and a growing cache hold the same keys, or values, at the first
/// `n` positions.
pub open spec fn holds_alike<V>(
    m: Meaning<V>,
    fixed: crate::tape::Term,
    content: crate::tape::Term,
    n: int,
) -> bool {
    forall|j: int| 0 <= j < n ==> #[trigger] m.at(fixed, j) == m.at(content, j)
}

/// What a query sees of row `j`.
pub open spec fn row_item<V>(
    m: Meaning<V>,
    f: FullAttention,
    q: Val,
    k: Val,
    v: Val,
) -> spec_fn(int) -> (V, V) {
    |j: int|
        (
            (m.un)(
                Op::MulScalar(Scalar::RecipSqrt(f.head_dim)),
                (m.score)(m.at(q.term, 0), m.at(k.term, j)),
            ),
            m.at(v.term, j),
        )
}

/// Attention over a whole buffer through a mask that shows the rows up to `n`, and
/// attention over these rows alone, give the same.
proof fn lemma_attended_alike<V>(
    m: Meaning<V>,
    f: FullAttention,
    q: (Val, Val),
    fixed: (Val, Val),
    mask: Val,
    view: (Val, Val),
    n: int,
)
    requires
        m.masks() && m.pairs_heads(),
        m.same(q.0, 0, q.1, 0),
        0 <= n < m.len(fixed.1.term),
        m.len(view.1.term) == n + 1,
        forall|j: int| #[trigger] cell_blocked(mask.term, j) == Some(n < j),
        holds_alike(m, fixed.0.term, view.0.term, n + 1),
        holds_alike(m, fixed.1.term, view.1.term, n + 1),
    ensures
        m.same(
            f.step_attended(q.0, fixed.0, fixed.1, mask),
            0,
            f.attended(q.1, view.0, view.1, 1),
            0,
        ),
{
    let scale = Op::MulScalar(Scalar::RecipSqrt(f.head_dim));
    let up = Op::Unsqueeze(0);
    let wide = un(up, fixed.1);
    let item = row_item(m, f, q.0, fixed.0, fixed.1);
    let ss = step_scores(f, q.0, fixed.0, mask);
    lemma_laid_out(m, up, fixed.1, 0);
    assert forall|j: int| 0 <= j < m.len(wide.term) implies #[trigger] shows(
        m,
        ss,
        wide,
        0,
        j,
        item,
        (0, n + 1),
    ) by {
        assert(cell_blocked(mask.term, j) == Some(n < j));
        lemma_step_score(m, f, q.0, fixed.0, mask, j);
        lemma_laid_out(m, up, fixed.1, j);
        let c = item(j).0;
        if j <= n {
            assert((m.bin)(Op::BroadcastAdd, c, (m.cell)(false)) == c);
        } else {
            assert(m.cell_at(ss.term, 0, j) == (m.bin)(Op::BroadcastAdd, c, (m.cell)(true)));
            assert(blocked_score(m, m.cell_at(ss.term, 0, j)));
        }
    }
    lemma_sees(m, Some(q.0.dtype), ss, wide, 0, item, (0, n + 1));
    let rep = f.n_heads / f.n_kv_heads;
    let (kx, vx) = (repeated(view.0, rep), repeated(view.1, rep));
    let turned = Op::Transpose(2, 3);
    let product = bin(Op::MatMul, q.1, un(turned, kx));
    let raw = un(scale, product);
    let to = Op::ToDType(DType::F32);
    let ps = un(to, raw);
    let own = |k: int| (m.cell_at(ps.term, 0, k), m.at(vx.term, k));
    lemma_copies(m, rep, m.at(q.1.term, 0), view.0, view.1, 0);
    assert forall|k: int| 0 <= k < m.len(vx.term) implies #[trigger] shows(
        m,
        ps,
        vx,
        0,
        k,
        own,
        (0, n + 1),
    ) by {}
    lemma_sees(m, Some(q.1.dtype), ps, vx, 0, own, (0, n + 1));
    assert forall|k: int| 0 <= k < n + 1 implies #[trigger] counts_at(
        m,
        own,
        item,
        (0, 0),
        k,
    ) by {
        lemma_cell_product(m, q.1, turned, kx, 0, k);
        lemma_cell_un(m, scale, product, 0, k);
        lemma_cell_un(m, to, raw, 0, k);
        lemma_copies(m, rep, m.at(q.1.term, 0), view.0, view.1, k);
        assert(m.at(fixed.0.term, k) == m.at(view.0.term, k));
        assert(m.at(fixed.1.term, k) == m.at(view.1.term, k));
        let (b, c) = (own(0 + k), item(0 + k));
        assert(b.0 == c.0);
        assert(counts(m, b, c));
    }
    lemma_taken_alike(m, own, item, (0, 0), n + 1, m.nothing);
    let (os, op) = (attended(Some(q.0.dtype), ss, wide), attended(Some(q.1.dtype), ps, vx));
    assert(m.same(os, 0, op, 0));
    let flat = Op::Reshape(d4(1, f.n_heads, 1, f.head_dim));
    lemma_laid_out(m, flat, os, 0);
    assert(f.step_attended(q.0, fixed.0, fixed.1, mask) == un(flat, os));
    assert(f.attended(q.1, view.0, view.1, 1) == op);
}

/// A replayed step attends as a pass over one token does: from static buffers and
/// a growing cache that hold the same, and at the position that the cache has
/// reached, the two give the same, and the buffers and the cache hold the same
/// afterwards. Masked rows and copies of heads make no difference to what is
/// gathered.
pub proof fn law_step_attends_as_the_pass<V>(
    m: Meaning<V>,
    f: FullAttention,
    device: Device,
    rotary: Rotary,
    x: Val,
    ctx: QwenStaticCtx,
    kv: FullKv,
    stepped: (Seq<Buf>, Bufs),
    eager: (Seq<Buf>, Bufs),
)
    requires
        m.masks() && m.pairs_heads(),
        f.wf(),
        rotary.rot <= f.head_dim,
        x.shape == d3(1, 1, x.shape.d2),
        m.len(x.term) == 1,
        kv.statics is Some,
        cache_fits(m, kv, eager.1),
        kv.cache.bufs is None ==> eager.0.len() < usize::MAX,
        rotary.beyond(kv.cache.len(), 1) is None,
        ({
            let p = kv.statics->0;
            let (pk, pv) = (p.k.id as int, p.v.id as int);
            let n = kv.cache.len() as int;
            &&& pk != pv && ctx.pos.id != ctx.mask.id
            &&& pk != ctx.pos.id && pk != ctx.mask.id && pv != ctx.pos.id && pv != ctx.mask.id
            &&& counted(stepped.1[ctx.pos.id as int]) == Some(n)
            &&& n < m.len(stepped.1[pv])
            &&& holds_alike(m, stepped.1[pk], eager.1[kv.cache.bufs->0.k.id as int], n)
            &&& holds_alike(m, stepped.1[pv], eager.1[kv.cache.bufs->0.v.id as int], n)
        }),
    ensures
        mask_row_effect(device, stepped.1, ctx.mask, ctx.pos, 0) matches Ok(b) ==> (f.step_pass(
            device,
            x,
            rotary,
            ctx.pos,
            ctx.mask,
            kv,
            stepped.0,
            b,
        ) matches Ok(s) ==> {
            let p = kv.statics->0;
            let n = kv.cache.len() as int;
            &&& f.pass(x, rotary, kv.cache.len(), kv, eager.0, eager.1) matches Ok(e)
            &&& m.same(s.out, 0, e.out, 0)
            &&& e.kv.cache.len() == n + 1 && cache_fits(m, e.kv, e.bufs)
            &&& holds_alike(
                m,
                s.bufs[p.k.id as int],
                e.bufs[e.kv.cache.bufs->0.k.id as int],
                n + 1,
            )
            &&& holds_alike(
                m,
                s.bufs[p.v.id as int],
                e.bufs[e.kv.cache.bufs->0.v.id as int],
                n + 1,
            )
        }),
{
    if let Ok(b) = mask_row_effect(device, stepped.1, ctx.mask, ctx.pos, 0) {
        if let Ok(s) = f.step_pass(device, x, rotary, ctx.pos, ctx.mask, kv, stepped.0, b) {
            let p = kv.statics->0;
            let (pk, pv) = (p.k.id as int, p.v.id as int);
            let (n, hd) = (kv.cache.len(), f.head_dim);
            let at = held(b, ctx.pos);
            let row = Op::Reshape(d3(f.n_kv_heads, 1, hd));
            let (q0, k0, v0) = (f.query(x, 1, 1), f.key(x, 1, 1), f.value(x, 1, 1));
            lemma_extents(m, f, rotary, 1, x, n);
            lemma_same_place(m, rotary, hd, q0, at, n);
            lemma_same_place(m, rotary, hd, k0, at, n);
            let (qs, qe) = (rotary.at_rows(q0, at, hd), rotary.at(q0, n, 1, hd));
            let (ks, ke) = (un(row, rotary.at_rows(k0, at, hd)), rotary.at(k0, n, 1, hd));
            let vs = un(row, v0);
            lemma_laid_out(m, row, rotary.at_rows(k0, at, hd), 0);
            lemma_laid_out(m, row, v0, 0);
            let e = f.pass(x, rotary, n, kv, eager.0, eager.1)->Ok_0;
            let view = kv.cache.views(eager.1, ke, v0);
            let c = kv.cache.bufs->0;
            let (fk, fv) = (held(s.bufs, p.k), held(s.bufs, p.v));
            lemma_view(m, kv.cache, eager.1, c.k, ke, 0);
            lemma_view(m, kv.cache, eager.1, c.v, v0, 0);
            assert forall|j: int| 0 <= j < n + 1 implies #[trigger] m.at(fk.term, j) == m.at(
                view.0.term,
                j,
            ) by {
                lemma_row_written(m, b[pk], ks.term, at.term, j);
                lemma_view(m, kv.cache, eager.1, c.k, ke, j);
                if j < n {
                    assert(m.at(stepped.1[pk], j) == m.at(eager.1[c.k.id as int], j));
                }
            }
            assert forall|j: int| 0 <= j < n + 1 implies #[trigger] m.at(fv.term, j) == m.at(
                view.1.term,
                j,
            ) by {
                lemma_row_written(m, b[pv], vs.term, at.term, j);
                lemma_view(m, kv.cache, eager.1, c.v, v0, j);
                if j < n {
                    assert(m.at(stepped.1[pv], j) == m.at(eager.1[c.v.id as int], j));
                }
            }
            lemma_row_written(m, b[pv], vs.term, at.term, 0);
            let mask = held(b, ctx.mask);
            lemma_attended_alike(m, f, (qs, qe), (fk, fv), mask, view, n as int);
            let (os, oe) = (
                f.step_attended(qs, fk, fv, mask),
                f.attended(qe, view.0, view.1, 1),
            );
            spans::lemma_same_output(m, f, 1, (os, oe), (x, 1), 0, (x, 1), 0);
        }
    }
}

} // verus!
