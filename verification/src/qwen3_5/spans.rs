//! What attention gives of a sequence in pieces.
use vstd::prelude::*;

use crate::dtype::DType;
use crate::fused::rms_normalized;
use crate::kv_cache::CatCache;
use crate::masks::{causal, chunk_cells};
use crate::positions::{
    lemma_bin_extent, lemma_cell_bin, lemma_cell_mask, lemma_cell_product, lemma_cell_un,
    lemma_gathered_next, lemma_gathered_none, lemma_joined, lemma_laid_out, lemma_looked_up,
    lemma_masked, lemma_same_bin, lemma_same_part, lemma_same_tri, lemma_same_un, lemma_un_extent,
    Meaning,
};
use crate::qwen3_5::attention::{repeated, FullAttention, FullKv, FullOut};
use crate::qwen3_5::norm::{RmsNormPlus1, Rotary};
use crate::qwen3_5::pieces::{follow, lemma_same_proj, lemma_same_rms};
use crate::shape::{d3, d4, d5, sat_product, sat_sum};
use crate::tape::{bin, held, leaf, mask_val, tri, un, Buf, Bufs, Op, Scalar, Val};

verus! {

pub(crate) proof fn lemma_same_norm<V>(m: Meaning<V>, n: RmsNormPlus1, a: Val, i: int, b: Val, j: int)
    requires
        m.same(a, i, b, j),
        a.shape.rank == b.shape.rank,
        a.dtype == b.dtype,
    ensures
        m.same(n.apply(a), i, n.apply(b), j),
        m.len(n.apply(a).term) == m.len(a.term),
        n.apply(a).shape == a.shape,
        n.apply(a).dtype == a.dtype,
{
    let (to, eps) = (Op::ToDType(DType::F32), Scalar::F64(n.eps));
    let (wa, wb) = (un(to, a), un(to, b));
    lemma_same_un(m, to, a, i, b, j);
    assert(wa.shape == a.shape && wb.shape == b.shape) by {
        reveal(un);
    }
    lemma_same_rms(m, eps, wa, i, wb, j);
    let w = leaf(Op::Param(n.weight));
    let (ra, rb) = (rms_normalized(wa, eps), rms_normalized(wb, eps));
    lemma_same_bin(m, Op::BroadcastMul, (ra, w), i, (rb, w), j);
    let (ba, bb) = (bin(Op::BroadcastMul, ra, w), bin(Op::BroadcastMul, rb, w));
    lemma_same_un(m, Op::ToDType(a.dtype), ba, i, bb, j);
    lemma_un_extent(m, to, a);
    let axis = wa.shape.last_axis();
    let root = un(Op::Sqrt, un(Op::AddScalar(eps), un(Op::MeanKeep(axis), un(Op::Sqr, wa))));
    lemma_bin_extent(m, Op::BroadcastDiv, wa, root);
    lemma_bin_extent(m, Op::BroadcastMul, ra, w);
    lemma_un_extent(m, Op::ToDType(a.dtype), ba);
    assert(n.apply(a).shape == a.shape && n.apply(a).dtype == a.dtype) by {
        reveal(un);
        reveal(bin);
    }
}

/// Rotation at positions `pos + i` depends on what is rotated and on the table.
proof fn lemma_same_rotation<V>(
    m: Meaning<V>,
    r: Rotary,
    hd: usize,
    a: (Val, usize, usize),
    i: int,
    b: (Val, usize, usize),
    j: int,
)
    requires
        m.same(a.0, i, b.0, j),
        a.0.dtype == b.0.dtype,
        a.1 + i == b.1 + j,
        r.rot <= hd,
    ensures
        m.same(r.at(a.0, a.1, a.2, hd), i, r.at(b.0, b.1, b.2, hd), j),
        m.len(r.at(a.0, a.1, a.2, hd).term) == m.len(a.0.term),
        a.0.shape.rank == 4 && a.0.shape.d3 == hd ==> r.at(a.0, a.1, a.2, hd).shape == a.0.shape,
{
    let to = Op::ToDType(a.0.dtype);
    let rows = |p: (Val, usize, usize)| Op::Narrow { dim: 0, start: p.1, len: p.2 };
    let table = |p: (Val, usize, usize), w: crate::tape::Weight|
        un(rows(p), leaf(Op::Param(w)));
    lemma_looked_up(m, r.cos, a.1, a.2, i);
    lemma_looked_up(m, r.cos, b.1, b.2, j);
    lemma_looked_up(m, r.sin, a.1, a.2, i);
    lemma_looked_up(m, r.sin, b.1, b.2, j);
    lemma_same_un(m, to, table(a, r.cos), i, table(b, r.cos), j);
    lemma_same_un(m, to, table(a, r.sin), i, table(b, r.sin), j);
    let (ca, cb) = (un(to, table(a, r.cos)), un(to, table(b, r.cos)));
    let (sa, sb) = (un(to, table(a, r.sin)), un(to, table(b, r.sin)));
    if r.rot == hd {
        lemma_same_tri(m, Op::RopeInterleaved, (a.0, ca, sa), i, (b.0, cb, sb), j);
    } else {
        let turn = Op::Narrow { dim: 3, start: 0, len: r.rot };
        let pass = Op::Narrow { dim: 3, start: r.rot, len: (hd - r.rot) as usize };
        lemma_same_part(m, turn, a.0, i, b.0, j);
        lemma_same_part(m, pass, a.0, i, b.0, j);
        let (ta, tb) = (un(turn, a.0), un(turn, b.0));
        lemma_same_tri(m, Op::RopeInterleaved, (ta, ca, sa), i, (tb, cb, sb), j);
        let (ra, rb) = (
            tri(Op::RopeInterleaved, ta, ca, sa),
            tri(Op::RopeInterleaved, tb, cb, sb),
        );
        lemma_same_bin(m, Op::Cat(3), (ra, un(pass, a.0)), i, (rb, un(pass, b.0)), j);
        lemma_un_extent(m, turn, a.0);
        lemma_bin_extent(m, Op::Cat(3), ra, un(pass, a.0));
    }
    reveal(un);
    reveal(bin);
    reveal(tri);
}

/// Queries, keys, values and gates of a position depend on the input there.
pub(crate) proof fn lemma_same_heads<V>(
    m: Meaning<V>,
    f: FullAttention,
    b: usize,
    x: (Val, usize),
    i: int,
    y: (Val, usize),
    j: int,
)
    requires
        m.same(x.0, i, y.0, j),
        x.0.dtype == y.0.dtype,
    ensures
        m.same(f.query(x.0, b, x.1), i, f.query(y.0, b, y.1), j),
        m.same(f.key(x.0, b, x.1), i, f.key(y.0, b, y.1), j),
        m.same(f.value(x.0, b, x.1), i, f.value(y.0, b, y.1), j),
        m.same(f.query_part(x.0, b, x.1, 1), i, f.query_part(y.0, b, y.1, 1), j),
        f.query(x.0, b, x.1).dtype == f.query(y.0, b, y.1).dtype,
        f.key(x.0, b, x.1).dtype == f.key(y.0, b, y.1).dtype,
        f.value(x.0, b, x.1).dtype == f.value(y.0, b, y.1).dtype,
        f.key(x.0, b, x.1).shape == d4(b, f.n_kv_heads, x.1, f.head_dim),
        f.value(x.0, b, x.1).shape == d4(b, f.n_kv_heads, x.1, f.head_dim),
        m.len(f.key(x.0, b, x.1).term) == m.len(x.0.term),
        m.len(f.value(x.0, b, x.1).term) == m.len(x.0.term),
{
    let hd = f.head_dim;
    lemma_same_proj(m, f.q_proj, x.0, i, y.0, j);
    lemma_same_proj(m, f.k_proj, x.0, i, y.0, j);
    lemma_same_proj(m, f.v_proj, x.0, i, y.0, j);
    let (qx, qy) = (f.q_proj.apply(x.0), f.q_proj.apply(y.0));
    let (kx, ky) = (f.k_proj.apply(x.0), f.k_proj.apply(y.0));
    let (vx, vy) = (f.v_proj.apply(x.0), f.v_proj.apply(y.0));
    assert(qx.dtype == qy.dtype && kx.dtype == ky.dtype && vx.dtype == vy.dtype) by {
        reveal(un);
        reveal(bin);
    }
    lemma_same_query_part(m, f, b, x, i, y, j, 0);
    lemma_same_query_part(m, f, b, x, i, y, j, 1);
    let (px, py) = (f.query_part(x.0, b, x.1, 0), f.query_part(y.0, b, y.1, 0));
    lemma_same_norm(m, f.q_norm, px, i, py, j);
    lemma_same_norm(m, f.q_norm, py, j, px, i);
    let turn = Op::Transpose(1, 2);
    lemma_same_un(m, turn, f.q_norm.apply(px), i, f.q_norm.apply(py), j);
    let (sx, sy) = (
        Op::Reshape(d4(b, x.1, f.n_kv_heads, hd)),
        Op::Reshape(d4(b, y.1, f.n_kv_heads, hd)),
    );
    lemma_laid_out(m, sx, kx, i);
    lemma_laid_out(m, sy, ky, j);
    lemma_laid_out(m, sx, vx, i);
    lemma_laid_out(m, sy, vy, j);
    let (nx, ny) = (un(sx, kx), un(sy, ky));
    assert(nx.shape == d4(b, x.1, f.n_kv_heads, hd) && ny.shape.rank == 4 && nx.dtype == kx.dtype
        && ny.dtype == ky.dtype) by {
        reveal(un);
    }
    lemma_same_norm(m, f.k_norm, nx, i, ny, j);
    lemma_same_norm(m, f.k_norm, ny, j, nx, i);
    lemma_same_un(m, turn, f.k_norm.apply(nx), i, f.k_norm.apply(ny), j);
    lemma_same_un(m, turn, un(sx, vx), i, un(sy, vy), j);
    lemma_un_extent(m, turn, f.k_norm.apply(nx));
    lemma_un_extent(m, turn, un(sx, vx));
    reveal(un);
}

proof fn lemma_same_query_part<V>(
    m: Meaning<V>,
    f: FullAttention,
    b: usize,
    x: (Val, usize),
    i: int,
    y: (Val, usize),
    j: int,
    part: usize,
)
    requires
        m.same(x.0, i, y.0, j),
        x.0.dtype == y.0.dtype,
    ensures
        m.same(f.query_part(x.0, b, x.1, part), i, f.query_part(y.0, b, y.1, part), j),
        f.query_part(x.0, b, x.1, part).dtype == f.query_part(y.0, b, y.1, part).dtype,
        f.query_part(x.0, b, x.1, part).shape.rank == 4,
        f.query_part(y.0, b, y.1, part).shape.rank == 4,
{
    let hd = f.head_dim;
    lemma_same_proj(m, f.q_proj, x.0, i, y.0, j);
    let (qx, qy) = (f.q_proj.apply(x.0), f.q_proj.apply(y.0));
    if f.gated {
        let (rx, ry) = (
            Op::Reshape(d5(b, x.1, f.n_heads, 2, hd)),
            Op::Reshape(d5(b, y.1, f.n_heads, 2, hd)),
        );
        lemma_laid_out(m, rx, qx, i);
        lemma_laid_out(m, ry, qy, j);
        lemma_same_un(m, Op::Select { dim: 3, index: part }, un(rx, qx), i, un(ry, qy), j);
    } else {
        lemma_laid_out(m, Op::Reshape(d4(b, x.1, f.n_heads, hd)), qx, i);
        lemma_laid_out(m, Op::Reshape(d4(b, y.1, f.n_heads, hd)), qy, j);
    }
    reveal(un);
    reveal(bin);
}

/// What a query that holds `q` gathers from the first `n` keys and values.
pub open spec fn seen<V>(m: Meaning<V>, f: FullAttention, q: V, k: Val, v: Val, n: int) -> V
    decreases n,
{
    if n <= 0 {
        m.nothing
    } else {
        let scale = Op::MulScalar(Scalar::RecipSqrt(f.head_dim));
        (m.gather)(
            seen(m, f, q, k, v, n - 1),
            (m.un)(scale, (m.score)(q, m.at(k.term, n - 1))),
            m.at(v.term, n - 1),
        )
    }
}

/// One more key seen.
proof fn lemma_seen_next<V>(m: Meaning<V>, f: FullAttention, q: V, k: Val, v: Val, n: int)
    ensures
        n <= 0 ==> seen(m, f, q, k, v, n) == m.nothing,
        n > 0 ==> seen(m, f, q, k, v, n) == (m.gather)(
            seen(m, f, q, k, v, n - 1),
            (m.un)(
                Op::MulScalar(Scalar::RecipSqrt(f.head_dim)),
                (m.score)(q, m.at(k.term, n - 1)),
            ),
            m.at(v.term, n - 1),
        ),
{
}

/// The cell of a causal mask.
pub(crate) proof fn lemma_causal_cell(q_len: usize, k_len: usize, i: int, j: int)
    requires
        0 <= i < q_len,
        0 <= j < k_len,
    ensures
        chunk_cells(q_len, k_len)[i * k_len + j] == (j > i + (k_len - q_len)),
{
    let c = i * k_len + j;
    vstd::arithmetic::div_mod::lemma_fundamental_div_mod_converse(c, k_len as int, i, j);
    assert(0 <= c < q_len * k_len) by (nonlinear_arith)
        requires
            c == i * k_len + j,
            0 <= i < q_len,
            0 <= j < k_len,
    ;
}

/// Query `i` gathers from the keys up to its own position, and from no later one.
proof fn lemma_gathered<V>(
    m: Meaning<V>,
    f: FullAttention,
    q: Val,
    k: Val,
    v: Val,
    seq: usize,
    i: int,
    n: int,
)
    requires
        m.masks(),
        0 <= i < seq,
        ({
            let kx = repeated(k, f.n_heads / f.n_kv_heads);
            &&& seq <= kx.shape.d2
            &&& 0 <= n <= kx.shape.d2
        }),
    ensures
        ({
            let rep = f.n_heads / f.n_kv_heads;
            let (kx, vx) = (repeated(k, rep), repeated(v, rep));
            let last = kx.shape.d2 - seq + i + 1;
            m.gathered(f.attended(q, k, v, seq).term, i, n) == seen(
                m,
                f,
                m.at(q.term, i),
                kx,
                vx,
                if n <= last {
                    n
                } else {
                    last
                },
            )
        }),
    decreases n,
{
    if n > 0 {
        lemma_gathered(m, f, q, k, v, seq, i, n - 1);
        let rep = f.n_heads / f.n_kv_heads;
        let (kx, vx) = (repeated(k, rep), repeated(v, rep));
        let scale = Op::MulScalar(Scalar::RecipSqrt(f.head_dim));
        let product = bin(Op::MatMul, q, un(Op::Transpose(2, 3), kx));
        let raw = un(scale, product);
        let c = (m.un)(scale, (m.score)(m.at(q.term, i), m.at(kx.term, n - 1)));
        lemma_cell_product(m, q, Op::Transpose(2, 3), kx, i, n - 1);
        lemma_cell_un(m, scale, product, i, n - 1);
        let plain = mask_val(seq, kx.shape.d2, chunk_cells(seq, kx.shape.d2));
        let cells = causal(seq, kx.shape.d2);
        let mask = un(Op::ToDType(raw.dtype), cells);
        let att = if seq > 1 {
            bin(Op::BroadcastAdd, raw, mask)
        } else {
            raw
        };
        if seq > 1 {
            lemma_causal_cell(seq, kx.shape.d2, i, n - 1);
            lemma_cell_un(m, Op::Reshape(d4(1, 1, seq, kx.shape.d2)), plain, i, n - 1);
            lemma_cell_un(m, Op::ToDType(raw.dtype), cells, i, n - 1);
            lemma_cell_bin(m, Op::BroadcastAdd, raw, mask, i, n - 1);
        }
        let scores = un(Op::ToDType(DType::F32), att);
        lemma_cell_un(m, Op::ToDType(DType::F32), att, i, n - 1);
        lemma_gathered_next(m, Some(q.dtype), scores, vx, i, n);
        let cell = m.cell_at(scores.term, i, n - 1);
        let blocked = n - 1 > i + (kx.shape.d2 - seq);
        let before = m.gathered(f.attended(q, k, v, seq).term, i, n - 1);
        if seq > 1 {
            lemma_cell_mask(m, seq, kx.shape.d2, chunk_cells(seq, kx.shape.d2), i, n - 1);
            lemma_masked(m, before, c, blocked, m.at(vx.term, n - 1));
        }
        let last = kx.shape.d2 - seq + i + 1;
        assert(m.gathered(f.attended(q, k, v, seq).term, i, n) == (m.gather)(
            before,
            cell,
            m.at(vx.term, n - 1),
        ));
        lemma_seen_next(m, f, m.at(q.term, i), kx, vx, n);
        if n <= last {
            assert(!blocked);
        } else {
            assert(blocked && seq > 1);
        }
    } else {
        let rep = f.n_heads / f.n_kv_heads;
        lemma_seen_next(m, f, m.at(q.term, i), repeated(k, rep), repeated(v, rep), 0);
        lemma_gathered_none(m, f.attended(q, k, v, seq).term, i);
    }
}

/// The same keys and values give the same.
proof fn lemma_same_seen<V>(
    m: Meaning<V>,
    f: FullAttention,
    q: V,
    a: (Val, Val),
    b: (Val, Val),
    n: int,
)
    requires
        forall|j: int| 0 <= j < n ==> #[trigger] m.at(a.0.term, j) == m.at(b.0.term, j),
        forall|j: int| 0 <= j < n ==> #[trigger] m.at(a.1.term, j) == m.at(b.1.term, j),
    ensures
        seen(m, f, q, a.0, a.1, n) == seen(m, f, q, b.0, b.1, n),
    decreases n,
{
    if n > 0 {
        lemma_same_seen(m, f, q, a, b, n - 1);
        assert(m.at(a.0.term, n - 1) == m.at(b.0.term, n - 1));
        assert(m.at(a.1.term, n - 1) == m.at(b.1.term, n - 1));
    }
}

/// Repeating for every head of a group depends on what is repeated.
proof fn lemma_same_repeated<V>(m: Meaning<V>, rep: usize, a: Val, b: Val, j: int)
    requires
        m.same(a, j, b, j),
        a.shape.d0 == b.shape.d0 && a.shape.d1 == b.shape.d1 && a.shape.d3 == b.shape.d3,
    ensures
        m.same(repeated(a, rep), j, repeated(b, rep), j),
        m.len(repeated(a, rep).term) == m.len(a.term),
        repeated(a, rep).shape.d2 == a.shape.d2,
{
    let (b0, kvh, hd) = (a.shape.d0, a.shape.d1, a.shape.d3);
    let up = Op::Unsqueeze(2);
    lemma_same_un(m, up, a, j, b, j);
    let (xa, xb) = (
        Op::Expand(d5(b0, kvh, rep, a.shape.d2, hd)),
        Op::Expand(d5(b0, kvh, rep, b.shape.d2, hd)),
    );
    let (ea, eb) = (un(xa, un(up, a)), un(xb, un(up, b)));
    assert(m.same(ea, j, eb, j)) by {
        reveal(un);
        assert(d5(b0, kvh, rep, a.shape.d2, hd).set(3, 0) == d5(
            b0,
            kvh,
            rep,
            b.shape.d2,
            hd,
        ).set(3, 0));
    }
    lemma_laid_out(
        m,
        Op::Reshape(d4(b0, sat_product(kvh, rep), a.shape.d2, hd)),
        ea,
        j,
    );
    lemma_laid_out(
        m,
        Op::Reshape(d4(b0, sat_product(kvh, rep), b.shape.d2, hd)),
        eb,
        j,
    );
    lemma_un_extent(m, up, a);
    lemma_un_extent(m, xa, un(up, a));
    reveal(un);
}

/// Output of a position, from attention and input there.
pub(crate) proof fn lemma_same_output<V>(
    m: Meaning<V>,
    f: FullAttention,
    b: usize,
    out: (Val, Val),
    x: (Val, usize),
    i: int,
    y: (Val, usize),
    j: int,
)
    requires
        m.same(out.0, i, out.1, j),
        m.same(x.0, i, y.0, j),
        x.0.dtype == y.0.dtype,
    ensures
        m.same(f.output(out.0, x.0, b, x.1), i, f.output(out.1, y.0, b, y.1), j),
{
    let turn = Op::Transpose(1, 2);
    lemma_same_query_part(m, f, b, x, i, y, j, 1);
    let (gx, gy) = (
        un(turn, f.query_part(x.0, b, x.1, 1)),
        un(turn, f.query_part(y.0, b, y.1, 1)),
    );
    lemma_same_un(
        m,
        turn,
        f.query_part(x.0, b, x.1, 1),
        i,
        f.query_part(y.0, b, y.1, 1),
        j,
    );
    lemma_same_un(m, Op::Sigmoid, gx, i, gy, j);
    lemma_same_bin(
        m,
        Op::Mul,
        (out.0, un(Op::Sigmoid, gx)),
        i,
        (out.1, un(Op::Sigmoid, gy)),
        j,
    );
    let (ox, oy) = if f.gated {
        (bin(Op::Mul, out.0, un(Op::Sigmoid, gx)), bin(Op::Mul, out.1, un(Op::Sigmoid, gy)))
    } else {
        out
    };
    lemma_same_un(m, turn, ox, i, oy, j);
    let width = sat_product(f.n_heads, f.head_dim);
    let (rx, ry) = (Op::Reshape(d3(b, x.1, width)), Op::Reshape(d3(b, y.1, width)));
    lemma_laid_out(m, rx, un(turn, ox), i);
    lemma_laid_out(m, ry, un(turn, oy), j);
    lemma_same_proj(m, f.o_proj, un(rx, un(turn, ox)), i, un(ry, un(turn, oy)), j);
}

/// What attention gives at position `i`.
proof fn lemma_attended<V>(m: Meaning<V>, f: FullAttention, q: Val, k: Val, v: Val, seq: usize, i: int)
    requires
        m.masks(),
        0 <= i < seq <= k.shape.d2,
        m.len(v.term) == k.shape.d2,
    ensures
        ({
            let rep = f.n_heads / f.n_kv_heads;
            m.at(f.attended(q, k, v, seq).term, i) == (m.mean)(
                seen(
                    m,
                    f,
                    m.at(q.term, i),
                    repeated(k, rep),
                    repeated(v, rep),
                    k.shape.d2 - seq + i + 1,
                ),
            )
        }),
{
    let rep = f.n_heads / f.n_kv_heads;
    lemma_same_repeated(m, rep, k, k, 0);
    lemma_same_repeated(m, rep, v, v, 0);
    let (kx, vx) = (repeated(k, rep), repeated(v, rep));
    let raw = un(
        Op::MulScalar(Scalar::RecipSqrt(f.head_dim)),
        bin(Op::MatMul, q, un(Op::Transpose(2, 3), kx)),
    );
    let att = if seq > 1 {
        bin(Op::BroadcastAdd, raw, un(Op::ToDType(raw.dtype), causal(seq, kx.shape.d2)))
    } else {
        raw
    };
    let scores = un(Op::ToDType(DType::F32), att);
    let n = k.shape.d2 as int;
    lemma_gathered_next(m, Some(q.dtype), scores, vx, i, n);
    lemma_gathered(m, f, q, k, v, seq, i, n);
}

/// What is held so far, followed by what is appended.
pub(crate) proof fn lemma_view<V>(m: Meaning<V>, c: CatCache, bufs: Bufs, buf: Buf, x: Val, j: int)
    requires
        c.filled ==> m.len(bufs[buf.id as int]) == buf.shape.d2,
    ensures
        ({
            let all = c.joined(bufs, buf, x);
            let n = if c.filled { buf.shape.d2 as int } else { 0 };
            &&& m.len(all.term) == n + m.len(x.term)
            &&& m.at(all.term, j) == (if c.filled && j < n {
                m.at(bufs[buf.id as int], j)
            } else {
                m.at(x.term, j - n)
            })
            &&& c.filled ==> all.shape == buf.shape.set(2, sat_sum(buf.shape.d2, x.shape.d2))
            &&& !c.filled ==> all.shape == x.shape
        }),
{
    if c.filled {
        lemma_joined(m, Op::Cat(2), held(bufs, buf), x, j);
        lemma_bin_extent(m, Op::Cat(2), held(bufs, buf), x);
        reveal(bin);
    }
}

/// A pass in its parts.
pub open spec fn passed(
    f: FullAttention,
    x: Val,
    rotary: Rotary,
    pos: usize,
    kv: FullKv,
    buffers: Seq<Buf>,
    bufs: Bufs,
) -> FullOut {
    let (b, seq) = (x.shape.d0, x.shape.d1);
    let q = rotary.at(f.query(x, b, seq), pos, seq, f.head_dim);
    let k = rotary.at(f.key(x, b, seq), pos, seq, f.head_dim);
    let v = f.value(x, b, seq);
    let (ka, va) = kv.cache.views(bufs, k, v);
    FullOut {
        out: f.output(f.attended(q, ka, va, seq), x, b, seq),
        bufs: kv.cache.bufs_after(buffers, bufs, k, v),
        buffers: kv.cache.buffers_after(buffers, bufs, k, v),
        kv: FullKv {
            cache: CatCache { bufs: Some(kv.cache.pair(buffers, bufs, k, v)), filled: true },
            statics: kv.statics,
        },
    }
}

/// The cache has as many positions as its extents say, in buffers of its own.
pub open spec fn cache_fits<V>(m: Meaning<V>, kv: FullKv, bufs: Bufs) -> bool {
    &&& kv.cache.wf()
    &&& kv.cache.bufs matches Some(p) ==> {
        &&& p.k.id != p.v.id
        &&& kv.cache.filled ==> m.len(bufs[p.k.id as int]) == p.k.shape.d2
        &&& kv.cache.filled ==> m.len(bufs[p.v.id as int]) == p.v.shape.d2
        &&& kv.cache.filled ==> p.v.shape.d2 == p.k.shape.d2
    }
}

/// A chunk in two pieces, the second on the cache that the first leaves, gives
/// the outputs of one pass over the whole chunk: no position sees a later one.
/// Both ways leave the same keys and values, grown by the whole chunk.
pub proof fn law_span_splits<V>(
    m: Meaning<V>,
    f: FullAttention,
    rotary: Rotary,
    x: Val,
    a: Val,
    b: Val,
    pos: usize,
    kv: FullKv,
    buffers: Seq<Buf>,
    bufs: Bufs,
)
    requires
        m.masks(),
        f.wf(),
        rotary.rot <= f.head_dim,
        follow(m, x, a, b),
        a.shape.d0 == x.shape.d0 && b.shape.d0 == x.shape.d0,
        cache_fits(m, kv, bufs),
        kv.cache.len() + x.shape.d1 <= usize::MAX,
        buffers.len() < usize::MAX,
        f.pass(x, rotary, pos, kv, buffers, bufs) is Ok,
    ensures
        ({
            let whole = f.pass(x, rotary, pos, kv, buffers, bufs)->Ok_0;
            let begun = f.pass(a, rotary, pos, kv, buffers, bufs);
            &&& begun matches Ok(first) && {
                let then = f.pass(
                    b,
                    rotary,
                    (pos + a.shape.d1) as usize,
                    first.kv,
                    first.buffers,
                    first.bufs,
                );
                &&& then matches Ok(second) && {
                    let (k, v) = (
                        whole.kv.cache.bufs->0.k.id as int,
                        whole.kv.cache.bufs->0.v.id as int,
                    );
                    &&& forall|i: int|
                        0 <= i < a.shape.d1 ==> m.at(whole.out.term, i) == #[trigger] m.at(
                            first.out.term,
                            i,
                        )
                    &&& forall|i: int|
                        0 <= i < b.shape.d1 ==> m.at(whole.out.term, a.shape.d1 + i)
                            == #[trigger] m.at(second.out.term, i)
                    &&& second.kv.cache.bufs->0.k.id == k && second.kv.cache.bufs->0.v.id == v
                    &&& whole.kv.cache.len() == kv.cache.len() + x.shape.d1
                    &&& second.kv.cache.len() == whole.kv.cache.len()
                    &&& forall|j: int|
                        0 <= j < whole.kv.cache.len() ==> #[trigger] m.at(whole.bufs[k], j)
                            == m.at(second.bufs[k], j)
                    &&& forall|j: int|
                        0 <= j < whole.kv.cache.len() ==> #[trigger] m.at(whole.bufs[v], j)
                            == m.at(second.bufs[v], j)
                }
            }
        }),
{
    let (t, u) = (a.shape.d1 as int, b.shape.d1 as int);
    let whole = passed(f, x, rotary, pos, kv, buffers, bufs);
    let first = passed(f, a, rotary, pos, kv, buffers, bufs);
    let later = (pos + a.shape.d1) as usize;
    let second = passed(f, b, rotary, later, first.kv, first.buffers, first.bufs);
    assert(f.pass(a, rotary, pos, kv, buffers, bufs)->Ok_0 == first);
    assert(f.pass(b, rotary, later, first.kv, first.buffers, first.bufs)->Ok_0 == second);
    let n = x.shape.d0;
    let hd = f.head_dim;
    let c = kv.cache;
    let n0 = c.len() as int;
    // queries, keys and values
    let heads = |y: Val, p: usize|
        (
            rotary.at(f.query(y, n, y.shape.d1), p, y.shape.d1, hd),
            rotary.at(f.key(y, n, y.shape.d1), p, y.shape.d1, hd),
            f.value(y, n, y.shape.d1),
        );
    let (qx, kx, vx) = heads(x, pos);
    let (qa, ka, va) = heads(a, pos);
    let (qb, kb, vb) = heads(b, later);
    assert forall|i: int| 0 <= i < t implies m.same(qx, i, qa, i) && m.same(kx, i, ka, i)
        && #[trigger] m.same(vx, i, va, i) by {
        assert(m.at(x.term, i) == m.at(a.term, i));
        lemma_same_heads(m, f, n, (x, x.shape.d1), i, (a, a.shape.d1), i);
        lemma_same_rotation(
            m,
            rotary,
            hd,
            (f.query(x, n, x.shape.d1), pos, x.shape.d1),
            i,
            (f.query(a, n, a.shape.d1), pos, a.shape.d1),
            i,
        );
        lemma_same_rotation(
            m,
            rotary,
            hd,
            (f.key(x, n, x.shape.d1), pos, x.shape.d1),
            i,
            (f.key(a, n, a.shape.d1), pos, a.shape.d1),
            i,
        );
    }
    assert forall|i: int| 0 <= i < u implies m.same(qx, t + i, qb, i) && m.same(kx, t + i, kb, i)
        && m.at(vx.term, t + i) == #[trigger] m.at(vb.term, i) by {
        assert(m.at(x.term, t + i) == m.at(b.term, i));
        lemma_same_heads(m, f, n, (x, x.shape.d1), t + i, (b, b.shape.d1), i);
        lemma_same_rotation(
            m,
            rotary,
            hd,
            (f.query(x, n, x.shape.d1), pos, x.shape.d1),
            t + i,
            (f.query(b, n, b.shape.d1), later, b.shape.d1),
            i,
        );
        lemma_same_rotation(
            m,
            rotary,
            hd,
            (f.key(x, n, x.shape.d1), pos, x.shape.d1),
            t + i,
            (f.key(b, n, b.shape.d1), later, b.shape.d1),
            i,
        );
    }
    lemma_extents(m, f, rotary, n, x, pos);
    lemma_extents(m, f, rotary, n, a, pos);
    lemma_extents(m, f, rotary, n, b, later);
    // keys and values held
    let (kw, vw) = c.views(bufs, kx, vx);
    let (kf, vf) = c.views(bufs, ka, va);
    let (kl, vl) = first.kv.cache.views(first.bufs, kb, vb);
    let (bk, bv) = (c.bufs->0.k, c.bufs->0.v);
    lemma_view(m, c, bufs, bk, ka, 0);
    lemma_view(m, c, bufs, bv, va, 0);
    lemma_view(m, c, bufs, bk, kx, 0);
    lemma_view(m, c, bufs, bv, vx, 0);
    let p = c.pair(buffers, bufs, ka, va);
    assert(first.bufs[p.k.id as int] == kf.term);
    assert(first.bufs[p.v.id as int] == vf.term);
    lemma_view(m, first.kv.cache, first.bufs, p.k, kb, 0);
    lemma_view(m, first.kv.cache, first.bufs, p.v, vb, 0);
    assert forall|j: int| 0 <= j < n0 + t implies #[trigger] m.at(kw.term, j) == m.at(kf.term, j)
        by {
        lemma_view(m, c, bufs, bk, ka, j);
        lemma_view(m, c, bufs, bk, kx, j);
        if j >= n0 {
            assert(m.same(vx, j - n0, va, j - n0));
        }
    }
    assert forall|j: int| 0 <= j < n0 + t implies #[trigger] m.at(vw.term, j) == m.at(vf.term, j)
        by {
        lemma_view(m, c, bufs, bv, va, j);
        lemma_view(m, c, bufs, bv, vx, j);
        if j >= n0 {
            assert(m.same(vx, j - n0, va, j - n0));
        }
    }
    assert forall|j: int| 0 <= j < n0 + t + u implies #[trigger] m.at(kw.term, j) == m.at(
        kl.term,
        j,
    ) by {
        lemma_view(m, first.kv.cache, first.bufs, p.k, kb, j);
        if j < n0 + t {
            assert(m.at(kw.term, j) == m.at(kf.term, j));
        } else {
            lemma_view(m, c, bufs, bk, kx, j);
            assert(m.at(vx.term, t + (j - n0 - t)) == m.at(vb.term, j - n0 - t));
        }
    }
    assert forall|j: int| 0 <= j < n0 + t + u implies #[trigger] m.at(vw.term, j) == m.at(
        vl.term,
        j,
    ) by {
        lemma_view(m, first.kv.cache, first.bufs, p.v, vb, j);
        if j < n0 + t {
            assert(m.at(vw.term, j) == m.at(vf.term, j));
        } else {
            lemma_view(m, c, bufs, bv, vx, j);
            assert(m.at(vx.term, t + (j - n0 - t)) == m.at(vb.term, j - n0 - t));
        }
    }
    // attention
    let rep = f.n_heads / f.n_kv_heads;
    assert forall|i: int| 0 <= i < t implies m.at(whole.out.term, i) == #[trigger] m.at(
        first.out.term,
        i,
    ) by {
        assert(m.at(x.term, i) == m.at(a.term, i));
        assert(m.same(vx, i, va, i));
        lemma_attended(m, f, qx, kw, vw, x.shape.d1, i);
        lemma_attended(m, f, qa, kf, vf, a.shape.d1, i);
        lemma_same_views(m, f, m.at(qx.term, i), (kw, vw), (kf, vf), n0 + i + 1);
        let (ow, of) = (
            f.attended(qx, kw, vw, x.shape.d1),
            f.attended(qa, kf, vf, a.shape.d1),
        );
        assert(m.same(ow, i, of, i));
        lemma_same_output(m, f, n, (ow, of), (x, x.shape.d1), i, (a, a.shape.d1), i);
    }
    assert forall|i: int| 0 <= i < u implies m.at(whole.out.term, t + i) == #[trigger] m.at(
        second.out.term,
        i,
    ) by {
        assert(m.at(x.term, t + i) == m.at(b.term, i));
        assert(m.at(vx.term, t + i) == m.at(vb.term, i));
        lemma_attended(m, f, qx, kw, vw, x.shape.d1, t + i);
        lemma_attended(m, f, qb, kl, vl, b.shape.d1, i);
        lemma_same_views(m, f, m.at(qb.term, i), (kw, vw), (kl, vl), n0 + t + i + 1);
        let (ow, ol) = (
            f.attended(qx, kw, vw, x.shape.d1),
            f.attended(qb, kl, vl, b.shape.d1),
        );
        assert(m.same(ow, t + i, ol, i));
        lemma_same_output(m, f, n, (ow, ol), (x, x.shape.d1), t + i, (b, b.shape.d1), i);
    }
}

/// Keys and values have one row per position.
pub(crate) proof fn lemma_extents<V>(m: Meaning<V>, f: FullAttention, rotary: Rotary, n: usize, x: Val, pos: usize)
    requires
        rotary.rot <= f.head_dim,
        m.len(x.term) == x.shape.d1,
    ensures
        ({
            let seq = x.shape.d1;
            let k = rotary.at(f.key(x, n, seq), pos, seq, f.head_dim);
            let v = f.value(x, n, seq);
            &&& m.len(k.term) == seq && m.len(v.term) == seq
            &&& k.shape == d4(n, f.n_kv_heads, seq, f.head_dim)
            &&& v.shape == d4(n, f.n_kv_heads, seq, f.head_dim)
        }),
{
    let seq = x.shape.d1;
    lemma_same_heads(m, f, n, (x, seq), 0, (x, seq), 0);
    let k = (f.key(x, n, seq), pos, seq);
    lemma_same_rotation(m, rotary, f.head_dim, k, 0, k, 0);
}

/// Views of the same extents that hold the same, repeated for the heads, give
/// the same.
proof fn lemma_same_views<V>(
    m: Meaning<V>,
    f: FullAttention,
    q: V,
    a: (Val, Val),
    b: (Val, Val),
    n: int,
)
    requires
        forall|j: int| 0 <= j < n ==> #[trigger] m.at(a.0.term, j) == m.at(b.0.term, j),
        forall|j: int| 0 <= j < n ==> #[trigger] m.at(a.1.term, j) == m.at(b.1.term, j),
        a.0.shape.d0 == b.0.shape.d0 && a.0.shape.d1 == b.0.shape.d1 && a.0.shape.d3
            == b.0.shape.d3,
        a.1.shape.d0 == b.1.shape.d0 && a.1.shape.d1 == b.1.shape.d1 && a.1.shape.d3
            == b.1.shape.d3,
    ensures
        ({
            let rep = f.n_heads / f.n_kv_heads;
            seen(m, f, q, repeated(a.0, rep), repeated(a.1, rep), n) == seen(
                m,
                f,
                q,
                repeated(b.0, rep),
                repeated(b.1, rep),
                n,
            )
        }),
{
    let rep = f.n_heads / f.n_kv_heads;
    let (ra, rb) = (
        (repeated(a.0, rep), repeated(a.1, rep)),
        (repeated(b.0, rep), repeated(b.1, rep)),
    );
    assert forall|j: int| 0 <= j < n implies #[trigger] m.at(ra.0.term, j) == m.at(rb.0.term, j)
        by {
        assert(m.at(a.0.term, j) == m.at(b.0.term, j));
        lemma_same_repeated(m, rep, a.0, b.0, j);
    }
    assert forall|j: int| 0 <= j < n implies #[trigger] m.at(ra.1.term, j) == m.at(rb.1.term, j)
        by {
        assert(m.at(a.1.term, j) == m.at(b.1.term, j));
        lemma_same_repeated(m, rep, a.1, b.1, j);
    }
    lemma_same_seen(m, f, q, ra, rb, n);
}

} // verus!
