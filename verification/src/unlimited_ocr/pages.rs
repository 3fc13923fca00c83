//! Cutting a page into views: the grid of tiles, and where pixels go.
//!
//! Pixels are rows of red, green and blue bytes.
use vstd::prelude::*;

verus! {

/// Side of a tile in pixels.
pub const TILE: u32 = 640;

/// Side of the global view in pixels.
pub const VIEW: u32 = 1024;

/// Tiles at most.
pub const MAX_TILES: usize = 32;

/// Half the area of a tile.
pub const HALF_TILE_AREA: u64 = 204800;

/// Bits of infinity in double precision.
pub const INFINITY: u64 = 0x7ff0_0000_0000_0000;

/// A grid that a page may be cut into: 2 to 32 tiles.
pub open spec fn is_grid(g: (usize, usize)) -> bool {
    2 <= g.0 * g.1 <= MAX_TILES
}

pub open spec fn longer_side(g: (usize, usize)) -> int {
    if g.0 >= g.1 {
        g.0 as int
    } else {
        g.1 as int
    }
}

/// Grid `g` is listed before the grids of `tiles` tiles, longer side `side` and
/// `wide` or more columns: fewer tiles come first, then shorter sides, then fewer
/// columns.
pub open spec fn listed_before(g: (usize, usize), tiles: int, side: int, wide: int) -> bool {
    ||| g.0 * g.1 < tiles
    ||| g.0 * g.1 == tiles && longer_side(g) < side
    ||| g.0 * g.1 == tiles && longer_side(g) == side && g.0 < wide
}

/// Grid `a` is listed before grid `b`.
pub open spec fn ahead(a: (usize, usize), b: (usize, usize)) -> bool {
    listed_before(a, b.0 * b.1, longer_side(b), b.0 as int)
}

/// `r` lists the grids before a point, in order.
pub open spec fn lists_up_to(r: Seq<(usize, usize)>, tiles: int, side: int, wide: int) -> bool {
    &&& forall|k: int|
        0 <= k < r.len() ==> is_grid(#[trigger] r[k]) && listed_before(r[k], tiles, side, wide)
    &&& forall|k: int, l: int| 0 <= k < l < r.len() ==> ahead(#[trigger] r[k], #[trigger] r[l])
    &&& forall|g: (usize, usize)|
        is_grid(g) && #[trigger] listed_before(g, tiles, side, wide) ==> r.contains(g)
}

/// All grids, in order.
pub open spec fn lists_all(r: Seq<(usize, usize)>) -> bool {
    &&& forall|k: int| 0 <= k < r.len() ==> is_grid(#[trigger] r[k])
    &&& forall|k: int, l: int| 0 <= k < l < r.len() ==> ahead(#[trigger] r[k], #[trigger] r[l])
    &&& forall|g: (usize, usize)| #[trigger] is_grid(g) ==> r.contains(g)
}

proof fn lemma_sides(g: (usize, usize))
    requires
        is_grid(g),
    ensures
        1 <= g.0 <= longer_side(g),
        1 <= g.1 <= longer_side(g),
        longer_side(g) <= g.0 * g.1,
{
    let (a, b) = (g.0 as int, g.1 as int);
    assert(a >= 1 && b >= 1) by (nonlinear_arith)
        requires
            a * b >= 2,
            a >= 0,
            b >= 0,
    ;
    assert(a <= a * b && b <= a * b) by (nonlinear_arith)
        requires
            a >= 1,
            b >= 1,
    ;
}

/// Listing the grid at a point, if there is one, moves the point on.
proof fn lemma_list_one(
    r: Seq<(usize, usize)>,
    s: Seq<(usize, usize)>,
    tiles: usize,
    side: usize,
    wide: usize,
)
    requires
        lists_up_to(r, tiles as int, side as int, wide as int),
        2 <= tiles <= MAX_TILES,
        1 <= wide <= side,
        s == (if tiles % wide == 0 && longer_side((wide, tiles / wide)) == side {
            r.push((wide, tiles / wide))
        } else {
            r
        }),
    ensures
        lists_up_to(s, tiles as int, side as int, wide + 1),
{
    let own = (wide, tiles / wide);
    assert forall|g: (usize, usize)|
        is_grid(g) && #[trigger] listed_before(
            g,
            tiles as int,
            side as int,
            wide + 1,
        ) implies s.contains(g) by {
        if listed_before(g, tiles as int, side as int, wide as int) {
            assert(r.contains(g));
            let k = choose|k: int| 0 <= k < r.len() && r[k] == g;
            assert(s[k] == g);
        } else {
            assert(g.0 == wide && g.0 * g.1 == tiles);
            let (a, b, t) = (g.0 as int, g.1 as int, tiles as int);
            assert(t % a == 0 && t / a == b) by (nonlinear_arith)
                requires
                    a * b == t,
                    a > 0,
            ;
            assert(g == own);
            assert(s[r.len() as int] == g);
        }
    }
    if tiles % wide == 0 {
        let (a, t) = (wide as int, tiles as int);
        assert(a * (t / a) == t) by (nonlinear_arith)
            requires
                t % a == 0,
                a > 0,
        ;
        assert(own.0 * own.1 == tiles);
    }
    assert forall|k: int| 0 <= k < s.len() implies is_grid(#[trigger] s[k]) && listed_before(
        s[k],
        tiles as int,
        side as int,
        wide + 1,
    ) by {
        if k < r.len() {
            assert(s[k] == r[k]);
        }
    }
    assert forall|k: int, l: int| 0 <= k < l < s.len() implies ahead(
        #[trigger] s[k],
        #[trigger] s[l],
    ) by {
        assert(s[k] == r[k]);
        if l < r.len() {
            assert(s[l] == r[l]);
        }
    }
}

/// No grid lies between the end of one side and the start of the next.
proof fn lemma_next_side(r: Seq<(usize, usize)>, tiles: int, side: int)
    requires
        lists_up_to(r, tiles, side, side + 1),
    ensures
        lists_up_to(r, tiles, side + 1, 1),
{
    assert forall|g: (usize, usize)|
        is_grid(g) && #[trigger] listed_before(g, tiles, side + 1, 1) implies r.contains(g) by {
        lemma_sides(g);
        assert(listed_before(g, tiles, side, side + 1));
    }
}

/// No grid lies between the last side of some tiles and one tile more.
proof fn lemma_next_tiles(r: Seq<(usize, usize)>, tiles: int)
    requires
        lists_up_to(r, tiles, tiles + 1, 1),
    ensures
        lists_up_to(r, tiles + 1, 1, 1),
{
    assert forall|g: (usize, usize)|
        is_grid(g) && #[trigger] listed_before(g, tiles + 1, 1, 1) implies r.contains(g) by {
        lemma_sides(g);
        assert(listed_before(g, tiles, tiles + 1, 1));
    }
}

/// Every grid of 2 to 32 tiles, as columns and rows: the fewest tiles first.
pub fn grids() -> (r: Vec<(usize, usize)>)
    ensures
        lists_all(r@),
{
    let mut r: Vec<(usize, usize)> = Vec::new();
    let mut tiles: usize = 2;
    proof {
        assert forall|g: (usize, usize)|
            is_grid(g) && #[trigger] listed_before(g, 2, 1, 1) implies r@.contains(g) by {
            lemma_sides(g);
        }
    }
    while tiles <= MAX_TILES
        invariant
            2 <= tiles <= MAX_TILES + 1,
            lists_up_to(r@, tiles as int, 1, 1),
        decreases MAX_TILES + 1 - tiles,
    {
        let mut side: usize = 1;
        while side <= tiles
            invariant
                2 <= tiles <= MAX_TILES,
                1 <= side <= tiles + 1,
                lists_up_to(r@, tiles as int, side as int, 1),
            decreases tiles + 1 - side,
        {
            let mut wide: usize = 1;
            while wide <= side
                invariant
                    2 <= tiles <= MAX_TILES,
                    1 <= side <= tiles,
                    1 <= wide <= side + 1,
                    lists_up_to(r@, tiles as int, side as int, wide as int),
                decreases side + 1 - wide,
            {
                let ghost before = r@;
                if tiles % wide == 0 {
                    let high: usize = tiles / wide;
                    if (if wide >= high { wide } else { high }) == side {
                        r.push((wide, high));
                    }
                }
                proof {
                    lemma_list_one(before, r@, tiles, side, wide);
                }
                wide += 1;
            }
            proof {
                lemma_next_side(r@, tiles as int, side as int);
            }
            side += 1;
        }
        proof {
            lemma_next_tiles(r@, tiles as int);
        }
        tiles += 1;
    }
    proof {
        assert forall|g: (usize, usize)| #[trigger] is_grid(g) implies r@.contains(g) by {
            assert(listed_before(g, MAX_TILES + 1, 1, 1));
        }
    }
    r
}

/// The grid chosen among the first `n`, and its distance. A smaller distance
/// wins; of equal ones a later grid, if the page has more than half the pixels
/// that it would fill.
pub open spec fn chosen(
    grids: Seq<(usize, usize)>,
    distances: Seq<u64>,
    area: int,
    n: int,
) -> ((usize, usize), u64)
    decreases n,
{
    if n <= 0 {
        ((1, 1), INFINITY)
    } else {
        let (best, least) = chosen(grids, distances, area, n - 1);
        let (g, d) = (grids[n - 1], distances[n - 1]);
        if d < least {
            (g, d)
        } else if d == least && area > HALF_TILE_AREA * (g.0 * g.1) {
            (g, least)
        } else {
            (best, least)
        }
    }
}

/// The columns and rows that a page of `w` by `h` pixels is cut into.
/// `distances` holds, for each grid of [`grids`], how far its aspect ratio is
/// from that of the page, as the bits of a double, which has no sign.
pub fn pick_crop_ratio(w: u32, h: u32, grids: &Vec<(usize, usize)>, distances: &Vec<u64>) -> (r: (
    usize,
    usize,
))
    requires
        lists_all(grids@),
        distances.len() == grids.len(),
    ensures
        w <= TILE && h <= TILE ==> r == (1usize, 1usize),
        !(w <= TILE && h <= TILE) ==> r == chosen(
            grids@,
            distances@,
            w * h,
            grids.len() as int,
        ).0,
{
    if w <= TILE && h <= TILE {
        return (1, 1);
    }
    assert(w * h <= 0xffff_ffff * 0xffff_ffff) by (nonlinear_arith)
        requires
            w <= 0xffff_ffff,
            h <= 0xffff_ffff,
    ;
    let area: u64 = w as u64 * h as u64;
    let mut best: (usize, usize) = (1, 1);
    let mut least: u64 = INFINITY;
    let mut i: usize = 0;
    while i < grids.len()
        invariant
            i <= grids.len(),
            lists_all(grids@),
            distances.len() == grids.len(),
            area == w * h,
            (best, least) == chosen(grids@, distances@, w * h, i as int),
        decreases grids.len() - i,
    {
        let g = grids[i];
        let d: u64 = distances[i];
        assert(is_grid(grids@[i as int]));
        let tiles: usize = g.0 * g.1;
        if d < least {
            least = d;
            best = g;
        } else if d == least && area > HALF_TILE_AREA * tiles as u64 {
            best = g;
        }
        i += 1;
    }
    best
}

/// No grid is nearer to the page's aspect ratio than the one chosen.
pub proof fn law_closest_wins(
    grids: Seq<(usize, usize)>,
    distances: Seq<u64>,
    area: int,
    n: int,
    k: int,
)
    requires
        0 <= k < n <= grids.len(),
        distances.len() == grids.len(),
    ensures
        chosen(grids, distances, area, n).1 <= distances[k],
        ({
            let (best, least) = chosen(grids, distances, area, n);
            least < INFINITY ==> exists|j: int|
                0 <= j < n && #[trigger] grids[j] == best && distances[j] == least
        }),
    decreases n,
{
    if k < n - 1 {
        law_closest_wins(grids, distances, area, n - 1, k);
    } else if n > 1 {
        law_closest_wins(grids, distances, area, n - 1, 0);
    }
    let (best, least) = chosen(grids, distances, area, n);
    let (before, d) = chosen(grids, distances, area, n - 1);
    if least < INFINITY {
        if best == grids[n - 1] && least == distances[n - 1] {
            assert(0 <= n - 1 < n && grids[n - 1] == best && distances[n - 1] == least);
        } else {
            assert(best == before && least == d);
            let j = choose|j: int|
                0 <= j < n - 1 && #[trigger] grids[j] == before && distances[j] == d;
            assert(grids[j] == best);
        }
    }
}

/// Of grids at the same distance, one that the page is large enough to fill half
/// of is preferred to any before it.
pub proof fn law_more_tiles_on_a_tie(
    grids: Seq<(usize, usize)>,
    distances: Seq<u64>,
    area: int,
    n: int,
)
    requires
        0 < n <= grids.len(),
        distances.len() == grids.len(),
        chosen(grids, distances, area, n - 1).1 == distances[n - 1],
        area > HALF_TILE_AREA * (grids[n - 1].0 * grids[n - 1].1),
    ensures
        chosen(grids, distances, area, n).0 == grids[n - 1],
{
}

/// Upper left corner of tile `tile` on a page cut into `wc` columns.
pub fn tile_origin(tile: usize, wc: usize) -> (r: (u32, u32))
    requires
        1 <= wc <= MAX_TILES,
        tile < MAX_TILES,
    ensures
        r.0 == (tile as int % wc as int) * TILE,
        r.1 == (tile as int / wc as int) * TILE,
{
    assert(tile as int / wc as int <= tile) by (nonlinear_arith)
        requires
            wc >= 1,
    ;
    ((tile % wc) as u32 * TILE, (tile / wc) as u32 * TILE)
}

/// The tiles of a `wc` by `hc` grid lie side by side, row after row, and cover
/// the page: a pixel of the page is a pixel of one tile.
pub proof fn law_tiles_cover(x: int, y: int, wc: int, hc: int)
    requires
        1 <= wc,
        1 <= hc,
        0 <= x < wc * TILE,
        0 <= y < hc * TILE,
    ensures
        ({
            let tile = (y / TILE as int) * wc + x / TILE as int;
            &&& 0 <= tile < wc * hc
            &&& (tile % wc) * TILE <= x < (tile % wc) * TILE + TILE
            &&& (tile / wc) * TILE <= y < (tile / wc) * TILE + TILE
        }),
{
    let (col, row) = (x / TILE as int, y / TILE as int);
    assert(0 <= col < wc && 0 <= row < hc);
    vstd::arithmetic::div_mod::lemma_fundamental_div_mod_converse(row * wc + col, wc, row, col);
    assert(0 <= row * wc + col < wc * hc) by (nonlinear_arith)
        requires
            0 <= col < wc,
            0 <= row < hc,
    ;
}

/// Margin before a side of `n` pixels that is centred on the global view.
pub fn margin(n: u32) -> (r: u32)
    requires
        n <= VIEW,
    ensures
        r == (VIEW - n) as int / 2,
        r + n <= VIEW,
{
    (VIEW - n) / 2
}

/// Longest side of a page: up to here, positions in single precision are less
/// than half a pixel off.
pub const MAX_SIDE: u32 = 0x10_0000;

/// The gray around a page on the global view.
pub const GRAY: u8 = 127;

/// Place of colour `c` of pixel `(x, y)` among rows of `w` pixels.
pub open spec fn byte_place(x: int, y: int, c: int, w: int) -> int {
    (y * w + x) * 3 + c
}

/// A page can be resized: its sides are not too long, and what is held on the
/// way fits into memory.
pub open spec fn resizable(w: u32, h: u32, nw: u32, nh: u32) -> bool {
    &&& 1 <= w <= MAX_SIDE
    &&& 1 <= h <= MAX_SIDE
    &&& 1 <= nw <= MAX_SIDE
    &&& 1 <= nh <= MAX_SIDE
    &&& 16 * (w * nh) <= isize::MAX
    &&& 3 * (nw * nh) <= isize::MAX
}

/// What is known of `p`, the `w` by `h` pixels resized to `nw` by `nh`: its
/// length, and that a page of the right size stays as it is.
pub open spec fn resampled(
    pixels: Seq<u8>,
    w: u32,
    h: u32,
    nw: u32,
    nh: u32,
    p: Seq<u8>,
) -> bool {
    &&& p.len() == 3 * (nw * nh)
    &&& nw == w && nh == h && pixels.len() == 3 * (w * h) ==> p == pixels
}

/// Calls `image::imageops::resize` with the Catmull-Rom filter on
/// `image::RgbImage::from_raw`. The latter takes the pixels if there are enough
/// of them; the former then gives three bytes for each of the new pixels, and a
/// copy where the size is the same. Left unsaid: the bytes of a page that does
/// change its size, which rest on powers whose last bits vary between machines.
/// Positions are computed in single precision, and a side on which they are off
/// by a pixel could leave a pixel with no weight at all, on which the call
/// panics.
#[verifier::external_body]
fn resize(pixels: Vec<u8>, w: u32, h: u32, nw: u32, nh: u32) -> (r: Option<Vec<u8>>)
    requires
        resizable(w, h, nw, nh),
    ensures
        r is Some <==> 3 * (w * h) <= pixels.len(),
        r matches Some(p) ==> resampled(pixels@, w, h, nw, nh, p@),
{
    let page = image::RgbImage::from_raw(w, h, pixels)?;
    let filter = image::imageops::FilterType::CatmullRom;
    Some(image::imageops::resize(&page, nw, nh, filter).into_raw())
}

/// The resize of these pixels from `w` by `h` to `nw` by `nh` was answered with
/// `r`.
pub closed spec fn resize_answered(
    pixels: Vec<u8>,
    w: u32,
    h: u32,
    nw: u32,
    nh: u32,
    r: Option<Vec<u8>>,
) -> bool {
    call_ensures(resize, (pixels, w, h, nw, nh), r)
}

/// Colour `c` of pixel `(x, y)` of the global view of `p`, which is `nw` by `nh`
/// pixels: the page in the middle, gray around it.
pub open spec fn view_byte(p: Seq<u8>, nw: int, nh: int, x: int, y: int, c: int) -> u8 {
    let (left, top) = ((VIEW - nw) / 2, (VIEW - nh) / 2);
    if left <= x < left + nw && top <= y < top + nh {
        p[byte_place(x - left, y - top, c, nw)]
    } else {
        GRAY
    }
}

/// The global view of `p`, byte by byte.
pub open spec fn viewed(p: Seq<u8>, nw: int, nh: int) -> Seq<u8> {
    Seq::new(
        3 * (VIEW * VIEW) as nat,
        |i: int| view_byte(p, nw, nh, (i / 3) % (VIEW as int), (i / 3) / (VIEW as int), i % 3),
    )
}

/// A byte of a pixel lies among the bytes of the pixels.
proof fn lemma_place_in_range(x: int, y: int, c: int, w: int, h: int)
    requires
        0 <= x < w,
        0 <= y < h,
        0 <= c < 3,
    ensures
        0 <= byte_place(x, y, c, w) < 3 * (w * h),
        0 <= y * w,
        y * w + x < w * h,
{
    assert(0 <= y * w && y * w + x < w * h) by (nonlinear_arith)
        requires
            0 <= x < w,
            0 <= y < h,
    ;
}

/// Centres a resized page on the gray square of the global view.
pub fn global_view(p: &Vec<u8>, nw: u32, nh: u32) -> (r: Vec<u8>)
    requires
        nw <= VIEW,
        nh <= VIEW,
        p.len() == 3 * (nw * nh),
    ensures
        r@ == viewed(p@, nw as int, nh as int),
{
    let (left, top) = (margin(nw) as usize, margin(nh) as usize);
    let (side, w, h) = (VIEW as usize, nw as usize, nh as usize);
    let total: usize = 3 * (side * side);
    let mut r: Vec<u8> = Vec::new();
    let mut i: usize = 0;
    while i < total
        invariant
            i <= total,
            total == 3 * (VIEW * VIEW),
            side == VIEW,
            w == nw && w <= VIEW,
            h == nh && h <= VIEW,
            left == (VIEW - nw) as int / 2,
            top == (VIEW - nh) as int / 2,
            p.len() == 3 * (w * h),
            r@ == viewed(p@, nw as int, nh as int).take(i as int),
        decreases total - i,
    {
        let (x, y, c) = ((i / 3) % side, (i / 3) / side, i % 3);
        let b: u8 = if left <= x && x < left + w && top <= y && y < top + h {
            proof {
                lemma_place_in_range(
                    x - left,
                    y - top,
                    c as int,
                    w as int,
                    h as int,
                );
            }
            p[((y - top) * w + (x - left)) * 3 + c]
        } else {
            GRAY
        };
        r.push(b);
        assert(r@ =~= viewed(p@, nw as int, nh as int).take(i + 1));
        i += 1;
    }
    assert(r@ =~= viewed(p@, nw as int, nh as int));
    r
}

/// The global view by its pixels: each byte is that of the page at the place
/// less the margins, or gray outside of the page.
pub proof fn law_view_pixels(p: Seq<u8>, nw: int, nh: int, x: int, y: int, c: int)
    requires
        0 <= x < VIEW,
        0 <= y < VIEW,
        0 <= c < 3,
    ensures
        viewed(p, nw, nh).len() == 3 * (VIEW * VIEW),
        viewed(p, nw, nh)[byte_place(x, y, c, VIEW as int)] == view_byte(p, nw, nh, x, y, c),
{
    let i = byte_place(x, y, c, VIEW as int);
    lemma_place_in_range(x, y, c, VIEW as int, VIEW as int);
    assert(i / 3 == y * VIEW + x && i % 3 == c);
    assert((i / 3) % (VIEW as int) == x && (i / 3) / (VIEW as int) == y);
}

/// Colour `c` of pixel `(x, y)` of tile `t` of `p`, which is `wc` tiles wide.
pub open spec fn tile_byte(p: Seq<u8>, wc: int, t: int, x: int, y: int, c: int) -> u8 {
    p[byte_place((t % wc) * TILE + x, (t / wc) * TILE + y, c, wc * TILE)]
}

/// Tile `t` of `p`, byte by byte.
pub open spec fn tile_of(p: Seq<u8>, wc: int, t: int) -> Seq<u8> {
    Seq::new(
        3 * (TILE * TILE) as nat,
        |i: int| tile_byte(p, wc, t, (i / 3) % (TILE as int), (i / 3) / (TILE as int), i % 3),
    )
}

/// Bytes of a page that is stretched over a grid.
pub open spec fn grid_bytes(wc: int, hc: int) -> int {
    3 * ((wc * TILE) * (hc * TILE))
}

/// Cuts tile `t` out of a page that was stretched over `wc` columns and `hc`
/// rows of tiles; tiles are counted row after row.
pub fn cut_tile(p: &Vec<u8>, wc: usize, hc: usize, t: usize) -> (r: Vec<u8>)
    requires
        1 <= wc,
        wc * hc <= MAX_TILES,
        t < wc * hc,
        p.len() == grid_bytes(wc as int, hc as int),
    ensures
        r@ == tile_of(p@, wc as int, t as int),
{
    proof {
        assert(wc <= wc * hc && hc <= wc * hc && hc >= 1) by (nonlinear_arith)
            requires
                wc >= 1,
                wc * hc >= 1,
        ;
    }
    let origin = tile_origin(t, wc);
    let (left, top) = (origin.0 as usize, origin.1 as usize);
    let side: usize = TILE as usize;
    let w: usize = wc * side;
    let total: usize = 3 * (side * side);
    proof {
        let (a, b, n) = (wc as int, hc as int, t as int);
        assert(0 <= n % a < a && 0 <= n / a < b) by (nonlinear_arith)
            requires
                a >= 1,
                0 <= n < a * b,
        ;
    }
    let mut r: Vec<u8> = Vec::new();
    let mut i: usize = 0;
    while i < total
        invariant
            i <= total,
            total == 3 * (TILE * TILE),
            side == TILE,
            1 <= wc <= MAX_TILES,
            1 <= hc <= MAX_TILES,
            w == wc * TILE,
            left == (t as int % wc as int) * TILE,
            top == (t as int / wc as int) * TILE,
            0 <= t as int % wc as int && t as int % (wc as int) < wc,
            0 <= t as int / wc as int && t as int / (wc as int) < hc,
            p.len() == grid_bytes(wc as int, hc as int),
            r@ == tile_of(p@, wc as int, t as int).take(i as int),
        decreases total - i,
    {
        let (x, y, c) = ((i / 3) % side, (i / 3) / side, i % 3);
        proof {
            lemma_place_in_range(
                left + x,
                top + y,
                c as int,
                w as int,
                hc * TILE,
            );
        }
        r.push(p[((top + y) * w + (left + x)) * 3 + c]);
        assert(r@ =~= tile_of(p@, wc as int, t as int).take(i + 1));
        i += 1;
    }
    assert(r@ =~= tile_of(p@, wc as int, t as int));
    r
}

/// A tile by its pixels: each byte is that of the page at the tile's origin
/// plus the place in the tile.
pub proof fn law_tile_pixels(p: Seq<u8>, wc: int, t: int, x: int, y: int, c: int)
    requires
        0 <= x < TILE,
        0 <= y < TILE,
        0 <= c < 3,
    ensures
        tile_of(p, wc, t).len() == 3 * (TILE * TILE),
        tile_of(p, wc, t)[byte_place(x, y, c, TILE as int)] == tile_byte(p, wc, t, x, y, c),
{
    let i = byte_place(x, y, c, TILE as int);
    lemma_place_in_range(x, y, c, TILE as int, TILE as int);
    assert(i / 3 == y * TILE + x && i % 3 == c);
    assert((i / 3) % (TILE as int) == x && (i / 3) / (TILE as int) == y);
}

/// The global view of a page of `w` by `h` pixels that is resized to `nw` by
/// `nh`, if there are that many pixels.
pub fn page_view(pixels: Vec<u8>, w: u32, h: u32, nw: u32, nh: u32) -> (r: Option<Vec<u8>>)
    requires
        resizable(w, h, nw, nh),
        nw <= VIEW,
        nh <= VIEW,
    ensures
        r is Some <==> 3 * (w * h) <= pixels.len(),
        r matches Some(v) ==> exists|p: Vec<u8>| #[trigger]
            resize_answered(pixels, w, h, nw, nh, Some(p)) && resampled(
                pixels@,
                w,
                h,
                nw,
                nh,
                p@,
            ) && v@ == viewed(p@, nw as int, nh as int),
{
    let ghost before = pixels;
    let p = resize(pixels, w, h, nw, nh)?;
    assert(resize_answered(before, w, h, nw, nh, Some(p)));
    Some(global_view(&p, nw, nh))
}

/// The tiles of a page of `w` by `h` pixels that is stretched over `wc` columns
/// and `hc` rows of them, row after row, if there are that many pixels.
pub fn page_tiles(pixels: Vec<u8>, w: u32, h: u32, wc: usize, hc: usize) -> (r: Option<Vec<Vec<u8>>>)
    requires
        1 <= wc,
        1 <= hc,
        wc * hc <= MAX_TILES,
        resizable(w, h, (wc * TILE) as u32, (hc * TILE) as u32),
    ensures
        r is Some <==> 3 * (w * h) <= pixels.len(),
        r matches Some(tiles) ==> exists|p: Vec<u8>|
            {
                &&& #[trigger] resize_answered(
                    pixels,
                    w,
                    h,
                    (wc * TILE) as u32,
                    (hc * TILE) as u32,
                    Some(p),
                )
                &&& resampled(pixels@, w, h, (wc * TILE) as u32, (hc * TILE) as u32, p@)
                &&& tiles.len() == wc * hc
                &&& forall|t: int|
                    0 <= t < wc * hc ==> (#[trigger] tiles[t])@ == tile_of(p@, wc as int, t)
            },
{
    let ghost before = pixels;
    proof {
        assert(wc <= wc * hc && hc <= wc * hc) by (nonlinear_arith)
            requires
                wc >= 1,
                hc >= 1,
        ;
    }
    let (nw, nh) = (wc as u32 * TILE, hc as u32 * TILE);
    let p = resize(pixels, w, h, nw, nh)?;
    assert(resize_answered(before, w, h, nw, nh, Some(p)));
    let mut tiles: Vec<Vec<u8>> = Vec::new();
    let mut t: usize = 0;
    let n: usize = wc * hc;
    while t < n
        invariant
            t <= n,
            n == wc * hc,
            1 <= wc,
            n <= MAX_TILES,
            p.len() == grid_bytes(wc as int, hc as int),
            tiles.len() == t,
            forall|k: int| 0 <= k < t ==> (#[trigger] tiles[k])@ == tile_of(p@, wc as int, k),
        decreases n - t,
    {
        tiles.push(cut_tile(&p, wc, hc, t));
        t += 1;
    }
    Some(tiles)
}

/// Place of colour `c` of pixel `(x, y)` among planes of `side` by `side`
/// pixels.
pub open spec fn plane_place(c: int, y: int, x: int, side: int) -> int {
    c * (side * side) + y * side + x
}

pub fn plane_index(c: usize, y: usize, x: usize, side: usize) -> (r: usize)
    requires
        c < 3,
        y < side,
        x < side,
        3 * (side * side) <= usize::MAX,
    ensures
        r == plane_place(c as int, y as int, x as int, side as int),
        r < 3 * (side * side),
{
    proof {
        let (ci, yi, xi, s) = (c as int, y as int, x as int, side as int);
        assert(0 <= yi * s + xi < s * s) by (nonlinear_arith)
            requires
                0 <= yi < s,
                0 <= xi < s,
        ;
        assert(0 <= ci * (s * s) <= 2 * (s * s)) by (nonlinear_arith)
            requires
                0 <= ci <= 2,
                s * s >= 0,
        ;
        assert(0 <= yi * s) by (nonlinear_arith)
            requires
                yi >= 0,
                s >= 0,
        ;
    }
    c * (side * side) + y * side + x
}

/// Different colours of different pixels have different places.
pub proof fn law_planes_do_not_overlap(
    a: (int, int, int),
    b: (int, int, int),
    side: int,
)
    requires
        0 <= a.0 < 3,
        0 <= a.1 < side,
        0 <= a.2 < side,
        0 <= b.0 < 3,
        0 <= b.1 < side,
        0 <= b.2 < side,
        plane_place(a.0, a.1, a.2, side) == plane_place(b.0, b.1, b.2, side),
    ensures
        a == b,
{
    let area = side * side;
    assert(0 <= a.1 * side + a.2 < area) by (nonlinear_arith)
        requires
            0 <= a.1 < side,
            0 <= a.2 < side,
            area == side * side,
    ;
    assert(0 <= b.1 * side + b.2 < area) by (nonlinear_arith)
        requires
            0 <= b.1 < side,
            0 <= b.2 < side,
            area == side * side,
    ;
    let p = plane_place(a.0, a.1, a.2, side);
    let (ra, rb) = (a.1 * side + a.2, b.1 * side + b.2);
    vstd::arithmetic::div_mod::lemma_fundamental_div_mod_converse(p, area, a.0, ra);
    vstd::arithmetic::div_mod::lemma_fundamental_div_mod_converse(p, area, b.0, rb);
    vstd::arithmetic::div_mod::lemma_fundamental_div_mod_converse(ra, side, a.1, a.2);
    vstd::arithmetic::div_mod::lemma_fundamental_div_mod_converse(rb, side, b.1, b.2);
}

} // verus!
