//! What a step and a pass over all tokens so far have in common.
use vstd::prelude::*;

use crate::dtype::Device;
use crate::gathering::{counts_at, lemma_sees, lemma_taken_alike, shows};
use crate::masks::square_cells;
use crate::positions::{
    attended, blocked_score, lemma_cell_bin, lemma_cell_corner, lemma_cell_mask, lemma_cell_matmul,
    lemma_cell_product, lemma_cell_un, lemma_laid_out, lemma_mask_row, lemma_row_written, Meaning,
};
use crate::qwen3_5::pieces::lemma_same_proj;
use crate::rows::cell_blocked;
use crate::shape::{d3, d4, sat_product};
use crate::static_decode::counted;
use crate::tape::{bin, held, mask_val, un, Buf, Bufs, Op, Scalar, Term, Val};
use crate::whisper::attention::{MhaState, MultiHeadAttention};

verus! {

/// What a query sees of row `j`, with both scales.
pub open spec fn row_item<V>(
    m: Meaning<V>,
    scale: Op,
    q: V,
    k: Term,
    v: Term,
) -> spec_fn(int) -> (V, V) {
    |j: int| ((m.un)(scale, (m.score)((m.un)(scale, q), m.at(k, j))), m.at(v, j))
}

/// What the head of queries of width `n_state` is scaled by.
pub open spec fn scale_of(a: MultiHeadAttention) -> Op {
    Op::MulScalar(Scalar::PowNegQuarter(a.head_dim_spec()))
}

/// A step of attention over whole buffers, through a mask that shows the rows up
/// to `n`.
pub(crate) proof fn lemma_step_sees<V>(
    m: Meaning<V>,
    a: MultiHeadAttention,
    q: Val,
    k: Val,
    v: Val,
    mask: Val,
    n: int,
)
    requires
        m.masks(),
        0 <= n < m.len(v.term),
        forall|j: int| #[trigger] cell_blocked(mask.term, j) == Some(n < j),
    ensures
        ({
            let item = row_item(m, scale_of(a), m.at(q.term, 0), k.term, v.term);
            exists|w: Val|
                #![trigger a.out.apply(w)]
                a.step_attended(q, k, v, mask) == a.out.apply(w) && m.at(w.term, 0) == (m.mean)(
                    m.taken(item, 0, n + 1, m.nothing),
                )
        }),
{
    let hd = a.head_dim_spec();
    let scale = scale_of(a);
    let one = Op::Reshape(d4(1, a.n_head, 1, hd));
    let q4 = un(scale, un(one, q));
    let up = Op::Unsqueeze(0);
    let turned = Op::Transpose(2, 3);
    let product = bin(Op::MatMul, q4, un(turned, un(up, k)));
    let flat = Op::Reshape(d4(1, 1, 1, k.shape.d1));
    let scores = bin(Op::BroadcastAdd, un(scale, product), un(flat, mask));
    let wide = un(up, v);
    let item = row_item(m, scale, m.at(q.term, 0), k.term, v.term);
    lemma_laid_out(m, one, q, 0);
    assert(m.at(q4.term, 0) == (m.un)(scale, m.at(q.term, 0))) by {
        reveal(un);
    }
    lemma_laid_out(m, up, v, 0);
    assert forall|j: int| 0 <= j < m.len(wide.term) implies #[trigger] shows(
        m,
        scores,
        wide,
        0,
        j,
        item,
        (0, n + 1),
    ) by {
        assert(cell_blocked(mask.term, j) == Some(n < j));
        lemma_laid_out(m, up, k, j);
        lemma_laid_out(m, up, v, j);
        lemma_cell_product(m, q4, turned, un(up, k), 0, j);
        lemma_cell_un(m, scale, product, 0, j);
        lemma_cell_un(m, flat, mask, 0, j);
        lemma_mask_row(m, mask, 0, j);
        lemma_cell_bin(m, Op::BroadcastAdd, un(scale, product), un(flat, mask), 0, j);
        let c = item(j).0;
        if j <= n {
            assert((m.bin)(Op::BroadcastAdd, c, (m.cell)(false)) == c);
        } else {
            assert(m.cell_at(scores.term, 0, j) == (m.bin)(Op::BroadcastAdd, c, (m.cell)(true)));
            assert(blocked_score(m, m.cell_at(scores.term, 0, j)));
        }
    }
    lemma_sees(m, None, scores, wide, 0, item, (0, n + 1));
    let wv = attended(None, scores, wide);
    lemma_joined(m, wv, 0);
    let w = MultiHeadAttention::joined(wv);
    assert(a.step_attended(q, k, v, mask) == a.out.apply(w));
}

/// Joining heads leaves every position as it is.
pub(crate) proof fn lemma_joined<V>(m: Meaning<V>, wv: Val, i: int)
    ensures
        m.same(MultiHeadAttention::joined(wv), i, wv, i),
        m.len(MultiHeadAttention::joined(wv).term) == m.len(wv.term),
{
    let swap = Op::Transpose(1, 2);
    let y = un(swap, wv);
    lemma_laid_out(m, swap, wv, i);
    lemma_laid_out(
        m,
        Op::Reshape(d3(y.shape.d0, y.shape.d1, sat_product(y.shape.d2, y.shape.d3))),
        y,
        i,
    );
}

/// Splitting into heads leaves every position as it is.
pub(crate) proof fn lemma_headed<V>(m: Meaning<V>, a: MultiHeadAttention, x: Val, i: int)
    ensures
        m.same(a.headed(x), i, x, i),
        m.len(a.headed(x).term) == m.len(x.term),
{
    let split = Op::Reshape(
        d4(x.shape.d0, x.shape.d1, a.n_head, (x.shape.d2 / a.n_head) as usize),
    );
    lemma_laid_out(m, split, x, i);
    lemma_laid_out(m, Op::Transpose(1, 2), un(split, x), i);
}

/// Which keys a pass shows to query `i`: all, or those up to its own.
pub open spec fn shown(mask: Option<Val>, keys: int, i: int) -> int {
    if mask is Some {
        i
    } else {
        keys - 1
    }
}

/// Attention of a pass, at query `i`.
proof fn lemma_pass_sees<V>(
    m: Meaning<V>,
    a: MultiHeadAttention,
    q: Val,
    k: Val,
    v: Val,
    mask: Option<Val>,
    n_ctx: usize,
    i: int,
)
    requires
        m.masks() && m.scales_keys(),
        a.wf(),
        q.shape.d2 == a.n_state,
        0 <= shown(mask, m.len(v.term), i) < m.len(v.term),
        mask matches Some(c) ==> 0 <= i < n_ctx && m.len(v.term) <= n_ctx && c == mask_val(
            n_ctx,
            n_ctx,
            square_cells(n_ctx, None),
        ),
    ensures
        ({
            let item = row_item(m, scale_of(a), m.at(q.term, i), k.term, v.term);
            m.at(a.attended(q, k, v, mask).term, i) == (m.mean)(
                m.taken(item, 0, shown(mask, m.len(v.term), i) + 1, m.nothing),
            )
        }),
{
    let scale = scale_of(a);
    let (hq, hk, hv) = (a.headed(q), a.headed(k), a.headed(v));
    let turned = Op::Transpose(2, 3);
    let (qa, ka) = (un(scale, hq), un(scale, un(turned, hk)));
    let product = bin(Op::MatMul, qa, ka);
    let len = q.shape.d1;
    let last = shown(mask, m.len(v.term), i);
    let scores = match mask {
        None => product,
        Some(c) => bin(
            Op::BroadcastAdd,
            product,
            un(
                Op::Narrow { dim: 1, start: 0, len },
                un(Op::Narrow { dim: 0, start: 0, len }, c),
            ),
        ),
    };
    let item = row_item(m, scale, m.at(q.term, i), k.term, v.term);
    lemma_headed(m, a, q, i);
    lemma_headed(m, a, v, 0);
    assert forall|j: int| 0 <= j < m.len(hv.term) implies #[trigger] shows(
        m,
        scores,
        hv,
        i,
        j,
        item,
        (0, last + 1),
    ) by {
        lemma_headed(m, a, k, j);
        lemma_headed(m, a, v, j);
        lemma_laid_out(m, turned, hk, j);
        lemma_cell_matmul(m, qa, ka, i, j);
        let c = item(j).0;
        assert(m.at(qa.term, i) == (m.un)(scale, m.at(hq.term, i)) && m.at(ka.term, j) == (m.un)(
            scale,
            m.at(un(turned, hk).term, j),
        )) by {
            reveal(un);
        }
        let s = Scalar::PowNegQuarter(a.head_dim_spec());
        let qi = (m.un)(scale, m.at(q.term, i));
        assert((m.score)(qi, (m.un)(Op::MulScalar(s), m.at(k.term, j))) == (m.un)(
            Op::MulScalar(s),
            (m.score)(qi, m.at(k.term, j)),
        ));
        assert(m.cell_at(product.term, i, j) == c);
        if let Some(cells) = mask {
            let part = un(
                Op::Narrow { dim: 1, start: 0, len },
                un(Op::Narrow { dim: 0, start: 0, len }, cells),
            );
            lemma_cell_corner(m, cells, len, i, j);
            lemma_cell_bin(m, Op::BroadcastAdd, product, part, i, j);
            lemma_cell_mask(m, n_ctx, n_ctx, square_cells(n_ctx, None), i, j);
            lemma_square_cell(n_ctx, i, j);
            if j <= last {
                assert((m.bin)(Op::BroadcastAdd, c, (m.cell)(false)) == c);
            } else {
                assert(m.cell_at(scores.term, i, j) == (m.bin)(
                    Op::BroadcastAdd,
                    c,
                    (m.cell)(true),
                ));
                assert(blocked_score(m, m.cell_at(scores.term, i, j)));
            }
        }
    }
    lemma_sees(m, None, scores, hv, i, item, (0, last + 1));
    lemma_joined(m, attended(None, scores, hv), i);
    assert(a.attended(q, k, v, mask) == MultiHeadAttention::joined(attended(None, scores, hv)));
}

/// A cell of a square causal mask.
pub(crate) proof fn lemma_square_cell(n: usize, i: int, j: int)
    requires
        0 <= i < n,
        0 <= j < n,
    ensures
        square_cells(n, None)[i * n + j] == (i < j),
{
    let c = i * n + j;
    vstd::arithmetic::div_mod::lemma_fundamental_div_mod_converse(c, n as int, i, j);
    assert(0 <= c < n * n) by (nonlinear_arith)
        requires
            c == i * n + j,
            0 <= i < n,
            0 <= j < n,
    ;
}

/// Rows of a buffer hold the first `n` positions of a value.
pub open spec fn rows_hold<V>(m: Meaning<V>, rows: Term, x: Term, n: int) -> bool {
    forall|j: int| 0 <= j < n ==> #[trigger] m.at(rows, j) == m.at(x, j)
}

/// The same keys and values, seen by the same query, give the same.
pub(crate) proof fn lemma_items_alike<V>(
    m: Meaning<V>,
    scale: Op,
    q: V,
    fixed: (Term, Term),
    own: (Term, Term),
    n: int,
)
    requires
        rows_hold(m, fixed.0, own.0, n),
        rows_hold(m, fixed.1, own.1, n),
    ensures
        m.taken(row_item(m, scale, q, fixed.0, fixed.1), 0, n, m.nothing) == m.taken(
            row_item(m, scale, q, own.0, own.1),
            0,
            n,
            m.nothing,
        ),
{
    let a = row_item(m, scale, q, fixed.0, fixed.1);
    let b = row_item(m, scale, q, own.0, own.1);
    assert forall|k: int| 0 <= k < n implies #[trigger] counts_at(m, a, b, (0, 0), k) by {
        assert(m.at(fixed.0, k) == m.at(own.0, k) && m.at(fixed.1, k) == m.at(own.1, k));
        assert(a(0 + k) == b(0 + k));
    }
    lemma_taken_alike(m, a, b, (0, 0), n, m.nothing);
}

/// A projection makes `n_state` numbers of every position of `x`.
pub open spec fn makes_state(a: MultiHeadAttention, x: Val) -> bool {
    &&& a.query.apply(x).shape.rank == 3 && a.query.apply(x).shape.d2 == a.n_state
    &&& a.key.apply(x).shape.rank == 3
    &&& a.value.apply(x).shape.rank == 3
}

/// A replayed step of self-attention gives, for the token at position `n`, what a
/// pass over all tokens gives at that position, from static buffers that hold the
/// keys and values of the earlier tokens; afterwards they hold those of one token
/// more.
pub proof fn law_step_attends_as_the_pass<V>(
    m: Meaning<V>,
    a: MultiHeadAttention,
    device: Device,
    x: (Val, Val),
    pos: Buf,
    mask: Buf,
    n_ctx: usize,
    n: int,
    state: MhaState,
    stepped: Bufs,
    eager: (Seq<Buf>, Bufs),
)
    requires
        m.masks() && m.scales_keys(),
        a.wf(),
        n_ctx * n_ctx <= usize::MAX,
        0 <= n < m.len(x.1.term) <= n_ctx,
        m.same(x.0, 0, x.1, n),
        makes_state(a, x.1),
        state.static_kv is Some,
        ({
            let p = state.static_kv->0;
            let (pk, pv) = (p.k.id as int, p.v.id as int);
            &&& pk != pv && pk != pos.id && pv != pos.id && pk != mask.id && pv != mask.id
            &&& counted(stepped[pos.id as int]) == Some(n)
            &&& forall|j: int| #[trigger] cell_blocked(stepped[mask.id as int], j) == Some(n < j)
            &&& n < m.len(stepped[pv])
            &&& rows_hold(m, stepped[pk], a.key.apply(x.1).term, n)
            &&& rows_hold(m, stepped[pv], a.value.apply(x.1).term, n)
        }),
    ensures
        a.self_step(device, x.0, pos, mask, state, stepped) matches Ok((out, b)) ==> {
            let p = state.static_kv->0;
            let c = mask_val(n_ctx, n_ctx, square_cells(n_ctx, None));
            &&& a.pass(x.1, None, Some(c), false, state, eager.0, eager.1) matches Ok(e)
            &&& m.same(out, 0, e.out, n)
            &&& rows_hold(m, b[p.k.id as int], a.key.apply(x.1).term, n + 1)
            &&& rows_hold(m, b[p.v.id as int], a.value.apply(x.1).term, n + 1)
        },
{
    if let Ok((out, b)) = a.self_step(device, x.0, pos, mask, state, stepped) {
        let p = state.static_kv->0;
        let (pk, pv) = (p.k.id as int, p.v.id as int);
        let row = Op::Reshape(d3(a.n_head, 1, a.head_dim_spec()));
        let (k0, v0) = (a.key.apply(x.0), a.value.apply(x.0));
        let (k1, v1) = (a.key.apply(x.1), a.value.apply(x.1));
        let (q0, q1) = (a.query.apply(x.0), a.query.apply(x.1));
        lemma_same_proj(m, a.query, x.0, 0, x.1, n);
        lemma_same_proj(m, a.key, x.0, 0, x.1, n);
        lemma_same_proj(m, a.value, x.0, 0, x.1, n);
        lemma_same_proj(m, a.value, x.1, n, x.0, 0);
        lemma_laid_out(m, row, k0, 0);
        lemma_laid_out(m, row, v0, 0);
        let at = held(stepped, pos);
        let (fk, fv) = (held(b, p.k), held(b, p.v));
        assert forall|j: int| 0 <= j < n + 1 implies #[trigger] m.at(fk.term, j) == m.at(
            k1.term,
            j,
        ) by {
            lemma_row_written(m, stepped[pk], un(row, k0).term, at.term, j);
            assert(j < n ==> m.at(stepped[pk], j) == m.at(k1.term, j));
        }
        assert forall|j: int| 0 <= j < n + 1 implies #[trigger] m.at(fv.term, j) == m.at(
            v1.term,
            j,
        ) by {
            lemma_row_written(m, stepped[pv], un(row, v0).term, at.term, j);
            assert(j < n ==> m.at(stepped[pv], j) == m.at(v1.term, j));
        }
        lemma_row_written(m, stepped[pv], un(row, v0).term, at.term, 0);
        lemma_step_sees(m, a, q0, fk, fv, held(b, mask), n);
        let c = mask_val(n_ctx, n_ctx, square_cells(n_ctx, None));
        lemma_pass_sees(m, a, q1, k1, v1, Some(c), n_ctx, n);
        let scale = scale_of(a);
        lemma_items_alike(
            m,
            scale,
            m.at(q0.term, 0),
            (fk.term, fv.term),
            (k1.term, v1.term),
            n + 1,
        );
        let item = row_item(m, scale, m.at(q0.term, 0), fk.term, fv.term);
        let w = choose|w: Val|
            #![trigger a.out.apply(w)]
            a.step_attended(q0, fk, fv, held(b, mask)) == a.out.apply(w) && m.at(w.term, 0)
                == (m.mean)(m.taken(item, 0, n + 1, m.nothing));
        lemma_same_proj(m, a.out, w, 0, a.attended(q1, k1, v1, Some(c)), n);
    }
}

/// A replayed step of cross-attention gives what the pass gives at the same
/// position, from static buffers that hold the keys and values of the encoder
/// output, behind a mask as long as it.
pub proof fn law_cross_step_attends_as_the_pass<V>(
    m: Meaning<V>,
    a: MultiHeadAttention,
    x: (Val, Val),
    i: int,
    xa: Val,
    flush: bool,
    cross_mask: Buf,
    states: (MhaState, MhaState),
    stepped: Bufs,
    eager: (Seq<Buf>, Bufs),
)
    requires
        m.masks() && m.scales_keys(),
        a.wf(),
        0 <= i,
        m.same(x.0, 0, x.1, i),
        makes_state(a, x.1),
        states.0.cross_static is Some,
        ({
            let p = states.0.cross_static->0;
            let (pk, pv) = (p.k.id as int, p.v.id as int);
            let kv = a.keys_values(x.1, Some(xa), flush, states.1, eager.0, eager.1);
            let n = m.len(kv.v.term);
            &&& kv.k.shape.rank == 3 && kv.v.shape.rank == 3
            &&& 0 < n <= m.len(stepped[pv])
            &&& forall|j: int|
                #[trigger] cell_blocked(stepped[cross_mask.id as int], j) == Some(n - 1 < j)
            &&& rows_hold(m, stepped[pk], kv.k.term, n)
            &&& rows_hold(m, stepped[pv], kv.v.term, n)
        }),
    ensures
        a.cross_step(x.0, cross_mask, states.0, stepped) is Ok,
        a.pass(x.1, Some(xa), None, flush, states.1, eager.0, eager.1) is Ok,
        m.same(
            a.cross_step(x.0, cross_mask, states.0, stepped)->Ok_0,
            0,
            a.pass(x.1, Some(xa), None, flush, states.1, eager.0, eager.1)->Ok_0.out,
            i,
        ),
{
    let p = states.0.cross_static->0;
    let kv = a.keys_values(x.1, Some(xa), flush, states.1, eager.0, eager.1);
    let n = m.len(kv.v.term);
    let (q0, q1) = (a.query.apply(x.0), a.query.apply(x.1));
    lemma_same_proj(m, a.query, x.0, 0, x.1, i);
    let (fk, fv) = (held(stepped, p.k), held(stepped, p.v));
    let mask = held(stepped, cross_mask);
    lemma_step_sees(m, a, q0, fk, fv, mask, n - 1);
    lemma_pass_sees(m, a, q1, kv.k, kv.v, None, 0, i);
    let scale = scale_of(a);
    lemma_items_alike(
        m,
        scale,
        m.at(q0.term, 0),
        (fk.term, fv.term),
        (kv.k.term, kv.v.term),
        n,
    );
    let item = row_item(m, scale, m.at(q0.term, 0), fk.term, fv.term);
    let w = choose|w: Val|
        #![trigger a.out.apply(w)]
        a.step_attended(q0, fk, fv, mask) == a.out.apply(w) && m.at(w.term, 0) == (m.mean)(
            m.taken(item, 0, n - 1 + 1, m.nothing),
        );
    lemma_same_proj(m, a.out, w, 0, a.attended(q1, kv.k, kv.v, None), i);
}

} // verus!
