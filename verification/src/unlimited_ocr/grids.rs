//! Which grids images of the trained sizes give.
use vstd::prelude::*;

use crate::loader::Loader;
use crate::shape::{d2, d3, d4, sat_product, sat_sum};
use crate::tape::{bin, leaf, un, Op, Val};
use crate::unlimited_ocr::arrangement::{
    law_crops_cells, law_crops_rows, line_end, reads_crops, reads_mosaic,
};
use crate::unlimited_ocr::vision::{
    floor_sqrt, law_square_side, positions, ClipTower, DeepEncoder, CLIP_POSITIONS,
    CLIP_WIDTH, CROPS_AT_ONCE, EMBED_WIDTH,
};

verus! {

/// Side of a page as it is shown whole, and of a crop.
pub const PAGE_SIDE: usize = 1024;

pub const CROP_SIDE: usize = 640;

/// Blocks keep the extents.
proof fn lemma_through(c: ClipTower, x: Val, n: int)
    requires
        x.shape.rank == 3,
        0 <= n <= c.blocks.len(),
    ensures
        c.through(x, n) matches Ok(y) && y.shape == x.shape,
    decreases n,
{
    if n > 0 {
        lemma_through(c, x, n - 1);
        reveal(un);
        reveal(bin);
    }
}

/// The table of positions fits a grid of 16, and is resampled for one of 10.
proof fn lemma_positions(pos: Val, g: usize)
    requires
        pos.shape == d3(1, CLIP_POSITIONS, CLIP_WIDTH),
        g == 16 || g == 10,
    ensures
        positions(pos, g) matches Ok(p) && p.shape == d3(1, (g * g + 1) as usize, CLIP_WIDTH),
{
    law_square_side(16);
    assert(floor_sqrt(256) == 16);
    reveal(un);
    reveal(bin);
}

/// Both towers on images of a trained size.
proof fn lemma_towers(e: DeepEncoder, l: Loader, vb: Seq<char>, img: Val, px: usize)
    requires
        e.asked(l, vb),
        px == PAGE_SIDE || px == CROP_SIDE,
        img.shape == d4(img.shape.d0, 3, px, px),
    ensures
        ({
            let f1 = e.features(img);
            let g = (px / 64) as usize;
            let b = img.shape.d0;
            &&& f1.shape == d4(b, CLIP_WIDTH, g, g)
            &&& e.clip.apply(f1) matches Ok(f2)
            &&& f2.shape == d3(b, (g * g + 1) as usize, CLIP_WIDTH)
            &&& e.projector.apply(DeepEncoder::merged(f1, f2)).shape == d3(
                b,
                (g * g) as usize,
                EMBED_WIDTH,
            )
        }),
{
    let g = (px / 64) as usize;
    let b = img.shape.d0;
    let sam = un(Op::SamEncoder { weight: e.sam, patch: 16, channels: 256 }, img);
    let half = un(Op::Conv2d { weight: e.net_2, padding: 1, stride: 2 }, sam);
    let f1 = e.features(img);
    assert(sam.shape == d4(b, 256, (px / 16) as usize, (px / 16) as usize)) by {
        reveal(un);
    }
    assert(half.shape == d4(b, 512, (px / 32) as usize, (px / 32) as usize)) by {
        reveal(un);
    }
    assert(f1.shape == d4(b, CLIP_WIDTH, g, g)) by {
        reveal(un);
    }
    let x = e.clip.tokens(f1);
    assert(x.shape == d3(b, (g * g + 1) as usize, CLIP_WIDTH)) by {
        reveal(un);
        reveal(bin);
    }
    let all = CLIP_POSITIONS * CLIP_WIDTH;
    assert(all % 1024 == 0 && all / 1024 == 257);
    let native = un(
        Op::Reshape(d3(1, CLIP_POSITIONS, CLIP_WIDTH)),
        leaf(Op::Param(e.clip.position_embedding)),
    );
    assert(native.shape == d3(1, CLIP_POSITIONS, CLIP_WIDTH)) by {
        reveal(un);
    }
    lemma_positions(native, g);
    let pos = positions(native, g)->Ok_0;
    let y = e.clip.pre_ln.apply(bin(Op::BroadcastAdd, x, un(Op::ToDType(x.dtype), pos)));
    assert(y.shape == x.shape) by {
        reveal(un);
        reveal(bin);
    }
    lemma_through(e.clip, y, e.clip.blocks.len() as int);
    let f2 = e.clip.apply(f1)->Ok_0;
    let merged = DeepEncoder::merged(f1, f2);
    assert(merged.shape == d3(b, (g * g) as usize, 2048)) by {
        reveal(un);
        reveal(bin);
    }
    assert(e.projector.apply(merged).shape == d3(b, (g * g) as usize, EMBED_WIDTH)) by {
        reveal(un);
        reveal(bin);
    }
}

/// A page of the trained size is accepted, and gives 16 rows of 16 cells with a
/// row end each, and the separator.
pub proof fn law_page_gives_its_view(e: DeepEncoder, l: Loader, vb: Seq<char>, img: Val)
    requires
        e.asked(l, vb),
        img.shape == d4(1, 3, PAGE_SIDE, PAGE_SIDE),
    ensures
        e.view_of(img) matches Ok(view) && view.shape == d2(273, EMBED_WIDTH),
{
    lemma_towers(e, l, vb, img, PAGE_SIDE);
    let f1 = e.features(img);
    let f2 = e.clip.apply(f1)->Ok_0;
    let feats = e.projector.apply(DeepEncoder::merged(f1, f2));
    let grid = un(Op::Reshape(d3(16, 16, EMBED_WIDTH)), feats);
    let wide = bin(Op::Cat(1), grid, e.newlines(16, EMBED_WIDTH, grid.dtype));
    assert(sat_product(16, sat_sum(16, 1)) == 272);
    let flat = un(Op::Reshape(d2(272, EMBED_WIDTH)), wide);
    let sep = un(
        Op::Reshape(d2(1, EMBED_WIDTH)),
        un(Op::ToDType(flat.dtype), leaf(Op::Param(e.view_seperator))),
    );
    assert(e.assembled(f1, f2) == bin(Op::Cat(0), flat, sep));
    assert(bin(Op::Cat(0), flat, sep).shape == d2(273, EMBED_WIDTH)) by {
        reveal(un);
        reveal(bin);
    }
}

/// A batch of crops of the trained size is accepted.
proof fn lemma_batch(e: DeepEncoder, l: Loader, vb: Seq<char>, crops: Val, i: int)
    requires
        e.asked(l, vb),
        crops.shape == d4(crops.shape.d0, 3, CROP_SIDE, CROP_SIDE),
        0 <= i < crops.shape.d0,
    ensures
        e.batch(crops, i) matches Ok(b) && b.shape == d3(
            DeepEncoder::crops_from(crops.shape.d0, i),
            100,
            EMBED_WIDTH,
        ),
{
    let len = DeepEncoder::crops_from(crops.shape.d0, i);
    let part = un(Op::Narrow { dim: 0, start: i as usize, len }, crops);
    assert(part.shape == d4(len, 3, CROP_SIDE, CROP_SIDE)) by {
        reveal(un);
    }
    lemma_towers(e, l, vb, part, CROP_SIDE);
}

/// The first `k` batches are accepted.
proof fn lemma_locals(e: DeepEncoder, l: Loader, vb: Seq<char>, crops: Val, k: int)
    requires
        e.asked(l, vb),
        crops.shape == d4(crops.shape.d0, 3, CROP_SIDE, CROP_SIDE),
        1 <= k,
        (k - 1) * CROPS_AT_ONCE < crops.shape.d0,
    ensures
        ({
            let n = crops.shape.d0;
            let so_far = if k * CROPS_AT_ONCE < n { k * CROPS_AT_ONCE } else { n as int };
            e.locals(crops, k) matches Ok(b) && b.shape == d3(so_far as usize, 100, EMBED_WIDTH)
        }),
    decreases k,
{
    if k <= 1 {
        lemma_batch(e, l, vb, crops, 0);
    } else {
        lemma_locals(e, l, vb, crops, k - 1);
        lemma_batch(e, l, vb, crops, (k - 1) * CROPS_AT_ONCE);
        reveal(bin);
    }
}

/// Crops of the trained size are accepted, and each gives a grid of 10 by 10.
pub proof fn law_crops_give_their_grids(e: DeepEncoder, l: Loader, vb: Seq<char>, crops: Val)
    requires
        e.asked(l, vb),
        crops.shape == d4(crops.shape.d0, 3, CROP_SIDE, CROP_SIDE),
        crops.shape.d0 > 0,
    ensures
        e.all_locals(crops) matches Ok(local) && local.shape == d3(
            crops.shape.d0,
            100,
            EMBED_WIDTH,
        ) && DeepEncoder::side(local) == 10,
{
    lemma_locals(e, l, vb, crops, DeepEncoder::batches(crops.shape.d0));
    law_square_side(10);
}

/// Rows that the crops of a large image take: `hc` times 10 rows of `wc` times 10
/// cells and a row end.
pub open spec fn crop_rows(wc: usize, hc: usize) -> int {
    (hc * 10) * (wc * 10 + 1)
}

/// A large image of the trained sizes is accepted: its crops come first, the view
/// of the whole page behind them.
pub proof fn law_large_image_is_accepted(
    e: DeepEncoder,
    l: Loader,
    vb: Seq<char>,
    img: Val,
    crops: Val,
    wc: usize,
    hc: usize,
)
    requires
        e.asked(l, vb),
        img.shape == d4(1, 3, PAGE_SIDE, PAGE_SIDE),
        crops.shape == d4(crops.shape.d0, 3, CROP_SIDE, CROP_SIDE),
        crops.shape.d0 == wc * hc,
        crops.shape.d0 > 0,
        crop_rows(wc, hc) + 273 <= usize::MAX,
    ensures
        e.crops_of(img, crops, wc, hc) matches Ok(out) && out.shape == d2(
            (crop_rows(wc, hc) + 273) as usize,
            EMBED_WIDTH,
        ),
{
    law_page_gives_its_view(e, l, vb, img);
    law_crops_give_their_grids(e, l, vb, crops);
    lemma_sides(wc, hc);
    let local = e.all_locals(crops)->Ok_0;
    let view = e.view_of(img)->Ok_0;
    let mosaic = e.mosaic(local, wc, hc, EMBED_WIDTH);
    let all = crop_rows(wc, hc) as usize;
    let (rows, cols) = (sat_product(hc, 10), sat_product(wc, 10));
    assert(rows == hc * 10 && cols == wc * 10 && sat_product(rows, sat_sum(cols, 1)) == all);
    assert(mosaic.shape == d2(all, EMBED_WIDTH)) by {
        reveal(un);
    }
    let body = un(Op::Narrow { dim: 0, start: 0, len: 272 }, view);
    let sep = un(Op::Narrow { dim: 0, start: 272, len: 1 }, view);
    lemma_joined_rows(mosaic, body, sep, view, all);
}

/// Extents of a mosaic with a view behind it.
proof fn lemma_joined_rows(mosaic: Val, body: Val, sep: Val, view: Val, all: usize)
    requires
        mosaic.shape == d2(all, EMBED_WIDTH),
        view.shape == d2(273, EMBED_WIDTH),
        body == un(Op::Narrow { dim: 0, start: 0, len: 272 }, view),
        sep == un(Op::Narrow { dim: 0, start: 272, len: 1 }, view),
        all + 273 <= usize::MAX,
    ensures
        bin(Op::Cat(0), bin(Op::Cat(0), mosaic, body), sep).shape == d2(
            (all + 273) as usize,
            EMBED_WIDTH,
        ),
{
    reveal(un);
    reveal(bin);
}

/// Where the rows fit, so do the sides.
proof fn lemma_sides(wc: usize, hc: usize)
    requires
        wc * hc > 0,
        crop_rows(wc, hc) + 273 <= usize::MAX,
    ensures
        0 < wc && 0 < hc,
        hc * 10 <= usize::MAX,
        wc * 10 < usize::MAX,
{
    assert(0 < wc && 0 < hc) by (nonlinear_arith)
        requires
            wc * hc > 0,
    ;
    let (a, b) = (hc * 10, wc * 10 + 1);
    assert(a <= a * b && b <= a * b) by (nonlinear_arith)
        requires
            a >= 1,
            b >= 1,
    ;
}

/// Row by row: row `y`, column `x` of the crops is one cell of one crop, with the
/// learned row end behind the last; and the rows from there on are those of the
/// view of the whole page.
pub proof fn law_large_image_rows<E>(
    f: spec_fn(Val, int) -> E,
    e: DeepEncoder,
    l: Loader,
    vb: Seq<char>,
    img: Val,
    crops: Val,
    wc: usize,
    hc: usize,
    y: int,
    x: int,
    r: int,
    k: int,
)
    requires
        e.asked(l, vb),
        img.shape == d4(1, 3, PAGE_SIDE, PAGE_SIDE),
        crops.shape == d4(crops.shape.d0, 3, CROP_SIDE, CROP_SIDE),
        crops.shape.d0 == wc * hc,
        crops.shape.d0 > 0,
        crop_rows(wc, hc) + 273 <= usize::MAX,
        reads_mosaic(f, e, e.all_locals(crops)->Ok_0, wc, hc, EMBED_WIDTH),
        reads_crops(
            f,
            e.mosaic(e.all_locals(crops)->Ok_0, wc, hc, EMBED_WIDTH),
            e.view_of(img)->Ok_0,
        ),
        0 <= y < hc * 10,
        0 <= x <= wc * 10,
        0 <= r < 273,
        0 <= k < EMBED_WIDTH,
    ensures
        ({
            let local = e.all_locals(crops)->Ok_0;
            let out = e.crops_of(img, crops, wc, hc)->Ok_0;
            let view = e.view_of(img)->Ok_0;
            let crop = (y / 10) * wc + x / 10;
            let cell = (y % 10) * 10 + x % 10;
            &&& f(out, (y * (wc * 10 + 1) + x) * EMBED_WIDTH + k) == (if x < wc * 10 {
                f(local, (crop * 100 + cell) * EMBED_WIDTH + k)
            } else {
                f(line_end(e, local), k)
            })
            &&& f(out, (crop_rows(wc, hc) + r) * EMBED_WIDTH + k) == f(
                view,
                r * EMBED_WIDTH + k,
            )
        }),
{
    law_page_gives_its_view(e, l, vb, img);
    law_crops_give_their_grids(e, l, vb, crops);
    lemma_sides(wc, hc);
    let local = e.all_locals(crops)->Ok_0;
    law_crops_cells(f, e, img, crops, wc, hc, local, y, x, k);
    law_crops_rows(f, e, img, crops, wc, hc, local, crop_rows(wc, hc) + r, k);
}

} // verus!
