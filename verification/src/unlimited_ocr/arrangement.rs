//! Which embedding stands in which row of a view and of its crops.
//!
//! A view is put together by operations that only move elements. Here is where
//! each element ends up, in every reading of the elements of these values that
//! agrees with what the operations move.
use vstd::prelude::*;

use crate::error::Error;
use crate::shape::{d2, d3, d5, sat_product, sat_sum, Shape};
use crate::tape::{bin, leaf, un, Op, Val};
use crate::unlimited_ocr::vision::{cell_of, law_mosaic_places, DeepEncoder};

verus! {

/// Other extents keep the elements in order.
pub open spec fn reshaped<E>(f: spec_fn(Val, int) -> E, s: Shape, v: Val, i: int) -> bool {
    f(un(Op::Reshape(s), v), i) == f(v, i)
}

/// Rows of `b` follow the rows of `a`.
pub open spec fn stacked<E>(f: spec_fn(Val, int) -> E, a: Val, b: Val, i: int) -> bool {
    let n = a.shape.d0 * a.shape.d1;
    a.shape.rank == 2 && b.shape.rank == 2 && 0 <= i ==> f(bin(Op::Cat(0), a, b), i) == (if i < n {
        f(a, i)
    } else {
        f(b, i - n)
    })
}

/// Each row of `a` is followed by the one cell of that row of `b`.
pub open spec fn widened<E>(
    f: spec_fn(Val, int) -> E,
    a: Val,
    b: Val,
    row: int,
    col: int,
    k: int,
) -> bool {
    let (rows, cols, d) = (a.shape.d0, a.shape.d1, a.shape.d2);
    a.shape == d3(rows, cols, d) && b.shape == d3(rows, 1, d) && 0 <= row < rows && 0 <= col <= cols
        && 0 <= k < d ==> f(bin(Op::Cat(1), a, b), (row * (cols + 1) + col) * d + k) == (if col
        < cols {
        f(a, (row * cols + col) * d + k)
    } else {
        f(b, row * d + k)
    })
}

/// The second and third axis change places.
pub open spec fn exchanged<E>(
    f: spec_fn(Val, int) -> E,
    v: Val,
    hr: int,
    wi: int,
    gy: int,
    gx: int,
    k: int,
) -> bool {
    let s = v.shape;
    let (wc, g, w, d) = (s.d1 as int, s.d2 as int, s.d3 as int, s.d4 as int);
    s.rank == 5 && 0 <= hr < s.d0 && 0 <= wi < wc && 0 <= gy < g && 0 <= gx < w && 0 <= k < d ==> f(
        un(Op::Permute5 { p0: 0, p1: 2, p2: 1, p3: 3, p4: 4 }, v),
        (((hr * g + gy) * wc + wi) * w + gx) * d + k,
    ) == f(v, (((hr * wc + wi) * g + gy) * w + gx) * d + k)
}

/// Rows from `start` on.
pub open spec fn cut<E>(
    f: spec_fn(Val, int) -> E,
    v: Val,
    start: usize,
    len: usize,
    i: int,
) -> bool {
    v.shape.rank == 2 && start + len <= v.shape.d0 && 0 <= i < len * v.shape.d1 ==> f(
        un(Op::Narrow { dim: 0, start, len }, v),
        i,
    ) == f(v, start * v.shape.d1 + i)
}

/// One cell is repeated in every row.
pub open spec fn repeated<E>(f: spec_fn(Val, int) -> E, v: Val, s: Shape, row: int, k: int) -> bool {
    s == d3(s.d0, 1, s.d2) && v.shape == d3(1, 1, s.d2) && 0 <= row < s.d0 && 0 <= k < s.d2 ==> f(
        un(Op::Expand(s), v),
        row * s.d2 + k,
    ) == f(v, k)
}

/// The learned row end in the element type of `like`.
pub open spec fn line_end(e: DeepEncoder, like: Val) -> Val {
    un(Op::ToDType(like.dtype), leaf(Op::Param(e.image_newline)))
}

/// `f` reads the elements of the row ends of `rows` rows as they are moved.
pub open spec fn reads_line_ends<E>(
    f: spec_fn(Val, int) -> E,
    e: DeepEncoder,
    like: Val,
    rows: usize,
    d: usize,
) -> bool {
    let one = un(Op::Reshape(d3(1, 1, d)), line_end(e, like));
    &&& forall|k: int| #[trigger] reshaped(f, d3(1, 1, d), line_end(e, like), k)
    &&& forall|row: int, k: int| #[trigger] repeated(f, one, d3(rows, 1, d), row, k)
}

/// `f` reads the elements of a grid with its row ends as they are moved.
pub open spec fn reads_grid<E>(
    f: spec_fn(Val, int) -> E,
    e: DeepEncoder,
    grid: Val,
    rows: usize,
    cols: usize,
    d: usize,
) -> bool {
    let ends = e.newlines(rows, d, grid.dtype);
    let wide = bin(Op::Cat(1), grid, ends);
    let flat = d2(sat_product(rows, sat_sum(cols, 1)), d);
    &&& reads_line_ends(f, e, grid, rows, d)
    &&& forall|row: int, col: int, k: int| #[trigger] widened(f, grid, ends, row, col, k)
    &&& forall|i: int| #[trigger] reshaped(f, flat, wide, i)
}

/// `f` reads the elements of the mosaic of `local` as they are moved.
pub open spec fn reads_mosaic<E>(
    f: spec_fn(Val, int) -> E,
    e: DeepEncoder,
    local: Val,
    wc: usize,
    hc: usize,
    d: usize,
) -> bool {
    let g = DeepEncoder::side(local);
    let (rows, cols) = (sat_product(hc, g), sat_product(wc, g));
    let split = un(Op::Reshape(d5(hc, wc, g, g, d)), local);
    let turned = un(Op::Permute5 { p0: 0, p1: 2, p2: 1, p3: 3, p4: 4 }, split);
    &&& forall|i: int| #[trigger] reshaped(f, d5(hc, wc, g, g, d), local, i)
    &&& forall|hr: int, wi: int, gy: int, gx: int, k: int| #[trigger]
        exchanged(f, split, hr, wi, gy, gx, k)
    &&& forall|i: int| #[trigger] reshaped(f, d3(rows, cols, d), turned, i)
    &&& reads_grid(f, e, un(Op::Reshape(d3(rows, cols, d)), turned), rows, cols, d)
}

/// `f` reads the elements of a view as they are moved.
pub open spec fn reads_view<E>(
    f: spec_fn(Val, int) -> E,
    e: DeepEncoder,
    f1: Val,
    f2: Val,
) -> bool {
    let (gh, gw) = (f1.shape.d2, f1.shape.d3);
    let feats = e.projector.apply(DeepEncoder::merged(f1, f2));
    let n = feats.shape.d2;
    let grid = un(Op::Reshape(d3(gh, gw, n)), feats);
    let wide = bin(Op::Cat(1), grid, e.newlines(gh, n, grid.dtype));
    let flat = un(Op::Reshape(d2(sat_product(gh, sat_sum(gw, 1)), n)), wide);
    let bare = un(Op::ToDType(flat.dtype), leaf(Op::Param(e.view_seperator)));
    &&& forall|i: int| #[trigger] reshaped(f, d3(gh, gw, n), feats, i)
    &&& reads_grid(f, e, grid, gh, gw, n)
    &&& forall|i: int| #[trigger] reshaped(f, d2(1, n), bare, i)
    &&& forall|i: int| #[trigger] stacked(f, flat, un(Op::Reshape(d2(1, n)), bare), i)
}

/// `f` reads the elements of a view behind its mosaic `m` as they are moved.
pub open spec fn reads_crops<E>(f: spec_fn(Val, int) -> E, m: Val, view: Val) -> bool {
    let less = (view.shape.d0 - 1) as usize;
    let body = un(Op::Narrow { dim: 0, start: 0, len: less }, view);
    let sep = un(Op::Narrow { dim: 0, start: less, len: 1 }, view);
    &&& forall|i: int| #[trigger] stacked(f, m, body, i)
    &&& forall|i: int| #[trigger] stacked(f, bin(Op::Cat(0), m, body), sep, i)
    &&& forall|i: int| #[trigger] cut(f, view, 0, less, i)
    &&& forall|i: int| #[trigger] cut(f, view, less, 1, i)
}

/// Every row end is the learned one.
proof fn lemma_line_ends<E>(
    f: spec_fn(Val, int) -> E,
    e: DeepEncoder,
    like: Val,
    rows: usize,
    d: usize,
    row: int,
    k: int,
)
    requires
        reads_line_ends(f, e, like, rows, d),
        0 <= row < rows,
        0 <= k < d,
    ensures
        e.newlines(rows, d, like.dtype).shape == d3(rows, 1, d),
        f(e.newlines(rows, d, like.dtype), row * d + k) == f(line_end(e, like), k),
{
    let one = un(Op::Reshape(d3(1, 1, d)), line_end(e, like));
    assert(one.shape == d3(1, 1, d)) by {
        reveal(un);
    }
    assert(e.newlines(rows, d, like.dtype).shape == d3(rows, 1, d)) by {
        reveal(un);
    }
    assert(repeated(f, one, d3(rows, 1, d), row, k));
    assert(reshaped(f, d3(1, 1, d), line_end(e, like), k));
}

/// A grid with a row end after each row: cell `(row, col)`, or the row end.
proof fn lemma_ended_rows<E>(
    f: spec_fn(Val, int) -> E,
    e: DeepEncoder,
    grid: Val,
    rows: usize,
    cols: usize,
    d: usize,
    row: int,
    col: int,
    k: int,
)
    requires
        reads_grid(f, e, grid, rows, cols, d),
        grid.shape == d3(rows, cols, d),
        0 <= row < rows,
        0 <= col <= cols,
        0 <= k < d,
    ensures
        ({
            let wide = bin(Op::Cat(1), grid, e.newlines(rows, d, grid.dtype));
            let flat = un(Op::Reshape(d2(sat_product(rows, sat_sum(cols, 1)), d)), wide);
            f(flat, (row * (cols + 1) + col) * d + k) == (if col < cols {
                f(grid, (row * cols + col) * d + k)
            } else {
                f(line_end(e, grid), k)
            })
        }),
{
    let ends = e.newlines(rows, d, grid.dtype);
    let wide = bin(Op::Cat(1), grid, ends);
    let i = (row * (cols + 1) + col) * d + k;
    assert(reshaped(f, d2(sat_product(rows, sat_sum(cols, 1)), d), wide, i));
    lemma_line_ends(f, e, grid, rows, d, row, k);
    assert(widened(f, grid, ends, row, col, k));
}

/// Row `row`, column `col` of the mosaic is the embedding of one cell of one
/// crop, crops and cells counted from left to right and from top to bottom; after
/// the last column stands the learned row end.
pub proof fn law_mosaic_rows<E>(
    f: spec_fn(Val, int) -> E,
    e: DeepEncoder,
    local: Val,
    wc: usize,
    hc: usize,
    d: usize,
    row: int,
    col: int,
    k: int,
)
    requires
        reads_mosaic(f, e, local, wc, hc, d),
        hc * DeepEncoder::side(local) <= usize::MAX,
        wc * DeepEncoder::side(local) < usize::MAX,
        0 <= row < hc * DeepEncoder::side(local),
        0 <= col <= wc * DeepEncoder::side(local),
        0 <= k < d,
    ensures
        ({
            let g = DeepEncoder::side(local) as int;
            let (crop, cell) = cell_of(row, col, g, wc as int);
            f(e.mosaic(local, wc, hc, d), (row * (wc * g + 1) + col) * d + k) == (if col < wc * g {
                f(local, (crop * (g * g) + cell) * d + k)
            } else {
                f(line_end(e, local), k)
            })
        }),
{
    let side = DeepEncoder::side(local);
    let g = side as int;
    let (rows, cols) = (sat_product(hc, side), sat_product(wc, side));
    let m1 = un(Op::Reshape(d5(hc, wc, side, side, d)), local);
    let m2 = un(Op::Permute5 { p0: 0, p1: 2, p2: 1, p3: 3, p4: 4 }, m1);
    let m3 = un(Op::Reshape(d3(rows, cols, d)), m2);
    assert(m3.shape == d3(rows, cols, d) && m1.shape == d5(hc, wc, side, side, d) && m3.dtype
        == local.dtype) by {
        reveal(un);
    }
    lemma_ended_rows(f, e, m3, rows, cols, d, row, col, k);
    if col < cols {
        let (hr, gy, wi, gx) = (row / g, row % g, col / g, col % g);
        assert(g > 0) by (nonlinear_arith)
            requires
                0 <= row < hc * g,
                g >= 0,
        ;
        vstd::arithmetic::div_mod::lemma_fundamental_div_mod(row, g);
        vstd::arithmetic::div_mod::lemma_fundamental_div_mod(col, g);
        assert(g * hr == hr * g && g * wi == wi * g) by (nonlinear_arith);
        assert(0 <= hr < hc) by (nonlinear_arith)
            requires
                0 <= row < hc * g,
                row == hr * g + gy,
                0 <= gy < g,
        ;
        assert(0 <= wi < wc) by (nonlinear_arith)
            requires
                0 <= col < wc * g,
                col == wi * g + gx,
                0 <= gx < g,
        ;
        law_mosaic_places(hr, wi, gy, gx, k, hc as int, wc as int, g, d as int);
        assert(reshaped(f, d3(rows, cols, d), m2, (row * cols + col) * d + k));
        assert(exchanged(f, m1, hr, wi, gy, gx, k));
        let (crop, cell) = cell_of(row, col, g, wc as int);
        assert(reshaped(
            f,
            d5(hc, wc, side, side, d),
            local,
            (crop * (g * g) + cell) * d + k,
        ));
    }
}

/// Row `y`, column `x` of a view is the embedding of that cell of its grid;
/// after the last column stands the learned row end, and behind the last row the
/// learned separator.
pub proof fn law_view_rows<E>(
    f: spec_fn(Val, int) -> E,
    e: DeepEncoder,
    f1: Val,
    f2: Val,
    y: int,
    x: int,
    k: int,
)
    requires
        reads_view(f, e, f1, f2),
        f1.shape.d2 * (f1.shape.d3 + 1) <= usize::MAX,
        f1.shape.d3 < usize::MAX,
        0 <= y < f1.shape.d2,
        0 <= x <= f1.shape.d3,
        0 <= k < e.projector.apply(DeepEncoder::merged(f1, f2)).shape.d2,
    ensures
        ({
            let (gh, gw) = (f1.shape.d2 as int, f1.shape.d3 as int);
            let feats = e.projector.apply(DeepEncoder::merged(f1, f2));
            let n = feats.shape.d2;
            let view = e.assembled(f1, f2);
            let sep = un(Op::ToDType(feats.dtype), leaf(Op::Param(e.view_seperator)));
            &&& f(view, (y * (gw + 1) + x) * n + k) == (if x < gw {
                f(feats, (y * gw + x) * n + k)
            } else {
                f(line_end(e, feats), k)
            })
            &&& f(view, gh * (gw + 1) * n + k) == f(sep, k)
        }),
{
    let (gh, gw) = (f1.shape.d2, f1.shape.d3);
    let feats = e.projector.apply(DeepEncoder::merged(f1, f2));
    let n = feats.shape.d2;
    let grid = un(Op::Reshape(d3(gh, gw, n)), feats);
    assert(grid.shape == d3(gh, gw, n) && grid.dtype == feats.dtype) by {
        reveal(un);
    }
    lemma_ended_rows(f, e, grid, gh, gw, n, y, x, k);
    let wide = bin(Op::Cat(1), grid, e.newlines(gh, n, grid.dtype));
    let all = sat_product(gh, sat_sum(gw, 1));
    let flat = un(Op::Reshape(d2(all, n)), wide);
    assert(flat.shape == d2(all, n) && flat.dtype == feats.dtype) by {
        reveal(un);
        reveal(bin);
    }
    let bare = un(Op::ToDType(flat.dtype), leaf(Op::Param(e.view_seperator)));
    let sep = un(Op::Reshape(d2(1, n)), bare);
    assert(sep.shape == d2(1, n)) by {
        reveal(un);
    }
    let i = (y * (gw + 1) + x) * n + k;
    assert(0 <= i < all * n) by (nonlinear_arith)
        requires
            all == gh * (gw + 1),
            0 <= y < gh,
            0 <= x <= gw,
            0 <= k < n,
            i == (y * (gw + 1) + x) * n + k,
    ;
    assert(stacked(f, flat, sep, i));
    assert(stacked(f, flat, sep, all * n + k));
    assert(reshaped(f, d3(gh, gw, n), feats, (y * gw + x) * n + k));
    assert(reshaped(f, d2(1, n), bare, k));
}

/// The rows of a large image: those of the mosaic of its crops, and behind them
/// those of its view, whose separator stays last.
pub proof fn law_crops_rows<E>(
    f: spec_fn(Val, int) -> E,
    e: DeepEncoder,
    img: Val,
    crops: Val,
    wc: usize,
    hc: usize,
    local: Val,
    r: int,
    k: int,
)
    requires
        e.view_of(img) is Ok,
        e.all_locals(crops) == Ok::<Val, Error>(local),
        reads_crops(
            f,
            e.mosaic(local, wc, hc, e.view_of(img)->Ok_0.shape.d1),
            e.view_of(img)->Ok_0,
        ),
        hc * DeepEncoder::side(local) <= usize::MAX,
        wc * DeepEncoder::side(local) < usize::MAX,
        (hc * DeepEncoder::side(local)) * (wc * DeepEncoder::side(local) + 1)
            + e.view_of(img)->Ok_0.shape.d0 <= usize::MAX,
        0 <= r < (hc * DeepEncoder::side(local)) * (wc * DeepEncoder::side(local) + 1)
            + e.view_of(img)->Ok_0.shape.d0,
        0 <= k < e.view_of(img)->Ok_0.shape.d1,
    ensures
        ({
            let g = DeepEncoder::side(local) as int;
            let view = e.view_of(img)->Ok_0;
            let d = view.shape.d1;
            let first = (hc * g) * (wc * g + 1);
            let out = e.crops_of(img, crops, wc, hc);
            &&& out is Ok
            &&& f(out->Ok_0, r * d + k) == (if r < first {
                f(e.mosaic(local, wc, hc, d), r * d + k)
            } else {
                f(view, (r - first) * d + k)
            })
        }),
{
    let g = DeepEncoder::side(local) as int;
    let view = e.view_of(img)->Ok_0;
    assert(view.shape == d2(view.shape.d0, view.shape.d1) && view.shape.d0 > 0) by {
        reveal(un);
        reveal(bin);
    }
    let (len, d) = (view.shape.d0, view.shape.d1);
    let first = (hc * g) * (wc * g + 1);
    assert(first >= 0) by (nonlinear_arith)
        requires
            first == (hc * g) * (wc * g + 1),
            hc * g >= 0,
            wc * g >= 0,
    ;
    let m = e.mosaic(local, wc, hc, d);
    let less = (len - 1) as usize;
    let body = un(Op::Narrow { dim: 0, start: 0, len: less }, view);
    let sep = un(Op::Narrow { dim: 0, start: less, len: 1 }, view);
    let both = bin(Op::Cat(0), m, body);
    assert(m.shape == d2(first as usize, d)) by {
        reveal(un);
    }
    assert(body.shape == d2(less, d) && sep.shape == d2(1, d)) by {
        reveal(un);
    }
    assert(both.shape == d2((first + less) as usize, d)) by {
        reveal(bin);
    }
    let i = r * d + k;
    assert(stacked(f, both, sep, i));
    assert(stacked(f, m, body, i));
    assert(0 <= i && (r < first ==> i < first * d) && (r >= first ==> i >= first * d) && (r < first
        + less ==> i < (first + less) * d) && (r >= first + less ==> i >= (first + less) * d))
        by (nonlinear_arith)
        requires
            i == r * d + k,
            0 <= k < d,
            0 <= r,
    ;
    if r >= first {
        let j = (r - first) * d + k;
        assert(i - first * d == j) by (nonlinear_arith)
            requires
                i == r * d + k,
                j == (r - first) * d + k,
        ;
        if r < first + less {
            assert(0 <= j < less * d) by (nonlinear_arith)
                requires
                    j == (r - first) * d + k,
                    first <= r < first + less,
                    0 <= k < d,
            ;
            assert(0 * d == 0) by (nonlinear_arith);
            assert(cut(f, view, 0, less, j));
        } else {
            assert(r == first + less);
            assert(i - (first + less) * d == k) by (nonlinear_arith)
                requires
                    i == r * d + k,
                    r == first + less,
            ;
            assert(j == less * d + k) by (nonlinear_arith)
                requires
                    j == (r - first) * d + k,
                    r == first + less,
            ;
            assert(1 * d == d) by (nonlinear_arith);
            assert(cut(f, view, less, 1, k));
        }
    }
}

/// Row `row`, column `col` of the crops of a large image, in what `forward_crops`
/// gives: the embedding of one cell of one crop, and the learned row end after the
/// last column.
pub proof fn law_crops_cells<E>(
    f: spec_fn(Val, int) -> E,
    e: DeepEncoder,
    img: Val,
    crops: Val,
    wc: usize,
    hc: usize,
    local: Val,
    row: int,
    col: int,
    k: int,
)
    requires
        e.view_of(img) is Ok,
        e.all_locals(crops) == Ok::<Val, Error>(local),
        reads_mosaic(f, e, local, wc, hc, e.view_of(img)->Ok_0.shape.d1),
        reads_crops(
            f,
            e.mosaic(local, wc, hc, e.view_of(img)->Ok_0.shape.d1),
            e.view_of(img)->Ok_0,
        ),
        hc * DeepEncoder::side(local) <= usize::MAX,
        wc * DeepEncoder::side(local) < usize::MAX,
        (hc * DeepEncoder::side(local)) * (wc * DeepEncoder::side(local) + 1)
            + e.view_of(img)->Ok_0.shape.d0 <= usize::MAX,
        0 <= row < hc * DeepEncoder::side(local),
        0 <= col <= wc * DeepEncoder::side(local),
        0 <= k < e.view_of(img)->Ok_0.shape.d1,
    ensures
        ({
            let g = DeepEncoder::side(local) as int;
            let d = e.view_of(img)->Ok_0.shape.d1;
            let (crop, cell) = cell_of(row, col, g, wc as int);
            let out = e.crops_of(img, crops, wc, hc);
            &&& out is Ok
            &&& f(out->Ok_0, (row * (wc * g + 1) + col) * d + k) == (if col < wc * g {
                f(local, (crop * (g * g) + cell) * d + k)
            } else {
                f(line_end(e, local), k)
            })
        }),
{
    let g = DeepEncoder::side(local) as int;
    let d = e.view_of(img)->Ok_0.shape.d1;
    let (rows, cols) = (hc * g, wc * g + 1);
    let r = row * cols + col;
    assert(0 <= r < rows * cols) by (nonlinear_arith)
        requires
            0 <= row < rows,
            0 <= col < cols,
            r == row * cols + col,
    ;
    law_crops_rows(f, e, img, crops, wc, hc, local, r, k);
    law_mosaic_rows(f, e, local, wc, hc, d, row, col, k);
}

} // verus!
