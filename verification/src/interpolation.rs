//! Separable resampling of square grids: which elements enter which.
//!
//! A `[src, src, dim]` grid is resized to `[dst, dst, dim]` by a horizontal
//! and a vertical pass; the filter weights are real numbers and belong to the
//! executor, the windows they cover and the elements they multiply are here.
use vstd::prelude::*;

verus! {

/// The source cells that one output cell is made of.
#[derive(Clone, Copy, PartialEq, Eq, Structural, Debug)]
pub struct Window {
    pub lo: usize,
    pub len: usize,
}

/// The cells from `floor` to `ceil` as far as they exist.
pub fn clamp_window(floor: i64, ceil: i64, src: usize) -> (w: Window)
    requires
        floor <= ceil,
        0 <= ceil,
        0 < src <= i64::MAX,
        floor < src,
    ensures
        w.lo == (if floor < 0 { 0 } else { floor as int }),
        w.lo + w.len - 1 == (if ceil <= src - 1 { ceil as int } else { src - 1 }),
        w.len >= 1,
        w.lo + w.len <= src,
{
    let lo: usize = if floor < 0 { 0 } else { floor as usize };
    let hi: usize = if ceil as u64 <= (src - 1) as u64 { ceil as usize } else { src - 1 };
    Window { lo, len: hi - lo + 1 }
}

/// Sizes of a resize.
#[derive(Clone, Copy, PartialEq, Eq, Structural, Debug)]
pub struct Resize {
    pub src: usize,
    pub dst: usize,
    pub dim: usize,
}

/// Place of `(row, col, d)` in a `[_, width, dim]` grid.
pub open spec fn place(row: int, col: int, d: int, width: int, dim: int) -> int {
    (row * width + col) * dim + d
}

proof fn lemma_place(row: int, col: int, d: int, rows: int, width: int, dim: int)
    requires
        0 <= row < rows,
        0 <= col < width,
        0 <= d < dim,
    ensures
        0 <= row * width,
        0 <= row * width + col < rows * width,
        0 <= (row * width + col) * dim,
        0 <= place(row, col, d, width, dim) < rows * width * dim,
{
    assert(0 <= row * width && row * width + width <= rows * width) by (nonlinear_arith)
        requires
            0 <= row < rows,
            0 <= width,
    ;
    let c = row * width + col;
    let n = rows * width;
    assert(0 <= c * dim && c * dim + dim <= n * dim) by (nonlinear_arith)
        requires
            0 <= c < n,
            0 <= dim,
    ;
}

impl Resize {
    /// Every window lies in the source.
    pub open spec fn windows_ok(self, windows: Seq<Window>) -> bool {
        &&& windows.len() == self.dst
        &&& forall|i: int|
            0 <= i < windows.len() ==> #[trigger] windows[i].lo + windows[i].len <= self.src
    }

    /// Both grids and the one between them can be addressed.
    pub open spec fn fits(self) -> bool {
        &&& self.src * self.src * self.dim <= usize::MAX
        &&& self.src * self.dst * self.dim <= usize::MAX
        &&& self.dst * self.dst * self.dim <= usize::MAX
    }

    /// Places in the source that make element `(row, col, d)` of the horizontal
    /// pass, in the order of the weights.
    pub fn horizontal_taps(self, windows: &Vec<Window>, row: usize, col: usize, d: usize) -> (taps:
        Vec<usize>)
        requires
            self.windows_ok(windows@),
            self.fits(),
            row < self.src,
            col < self.dst,
            d < self.dim,
        ensures
            taps.len() == windows[col as int].len,
            forall|k: int|
                0 <= k < taps.len() ==> #[trigger] taps[k] == place(
                    row as int,
                    windows[col as int].lo + k,
                    d as int,
                    self.src as int,
                    self.dim as int,
                ) && taps[k] < self.src * self.src * self.dim,
    {
        let w = windows[col];
        let mut taps: Vec<usize> = Vec::new();
        let mut k: usize = 0;
        while k < w.len
            invariant
                k <= w.len,
                w.lo + w.len <= self.src,
                self.fits(),
                row < self.src,
                d < self.dim,
                taps.len() == k,
                forall|j: int|
                    0 <= j < k ==> #[trigger] taps[j] == place(
                        row as int,
                        w.lo + j,
                        d as int,
                        self.src as int,
                        self.dim as int,
                    ) && taps[j] < self.src * self.src * self.dim,
            decreases w.len - k,
        {
            proof {
                lemma_place(
                    row as int,
                    w.lo + k,
                    d as int,
                    self.src as int,
                    self.src as int,
                    self.dim as int,
                );
                lemma_room(self.src as int, self.src as int, self.dim as int);
            }
            taps.push((row * self.src + (w.lo + k)) * self.dim + d);
            k += 1;
        }
        taps
    }

    /// Places in the grid between the passes that make element `(row, col, d)`
    /// of the output, in the order of the weights.
    pub fn vertical_taps(self, windows: &Vec<Window>, row: usize, col: usize, d: usize) -> (taps:
        Vec<usize>)
        requires
            self.windows_ok(windows@),
            self.fits(),
            row < self.dst,
            col < self.dst,
            d < self.dim,
        ensures
            taps.len() == windows[row as int].len,
            forall|k: int|
                0 <= k < taps.len() ==> #[trigger] taps[k] == place(
                    windows[row as int].lo + k,
                    col as int,
                    d as int,
                    self.dst as int,
                    self.dim as int,
                ) && taps[k] < self.src * self.dst * self.dim,
    {
        let w = windows[row];
        let mut taps: Vec<usize> = Vec::new();
        let mut k: usize = 0;
        while k < w.len
            invariant
                k <= w.len,
                w.lo + w.len <= self.src,
                self.fits(),
                col < self.dst,
                d < self.dim,
                taps.len() == k,
                forall|j: int|
                    0 <= j < k ==> #[trigger] taps[j] == place(
                        w.lo + j,
                        col as int,
                        d as int,
                        self.dst as int,
                        self.dim as int,
                    ) && taps[j] < self.src * self.dst * self.dim,
            decreases w.len - k,
        {
            proof {
                lemma_place(
                    w.lo + k,
                    col as int,
                    d as int,
                    self.src as int,
                    self.dst as int,
                    self.dim as int,
                );
                lemma_room(self.src as int, self.dst as int, self.dim as int);
            }
            taps.push(((w.lo + k) * self.dst + col) * self.dim + d);
            k += 1;
        }
        taps
    }

    /// Where an element of a `[_, dst, dim]` grid goes.
    pub fn out_place(self, row: usize, col: usize, d: usize, rows: usize) -> (p: usize)
        requires
            row < rows,
            col < self.dst,
            d < self.dim,
            rows * self.dst * self.dim <= usize::MAX,
        ensures
            p == place(row as int, col as int, d as int, self.dst as int, self.dim as int),
            p < rows * self.dst * self.dim,
    {
        proof {
            lemma_place(
                row as int,
                col as int,
                d as int,
                rows as int,
                self.dst as int,
                self.dim as int,
            );
            lemma_room(rows as int, self.dst as int, self.dim as int);
        }
        (row * self.dst + col) * self.dim + d
    }
}

proof fn lemma_room(rows: int, width: int, dim: int)
    requires
        rows * width * dim <= usize::MAX,
        0 <= rows,
        0 <= width,
        0 < dim,
    ensures
        rows * width <= usize::MAX,
{
    assert(rows * width <= rows * width * dim) by (nonlinear_arith)
        requires
            0 <= rows * width,
            0 < dim,
    ;
    assert(0 <= rows * width) by (nonlinear_arith)
        requires
            0 <= rows,
            0 <= width,
    ;
}

/// No two elements of a grid share a place.
pub proof fn law_places_differ(
    r1: int,
    c1: int,
    d1: int,
    r2: int,
    c2: int,
    d2: int,
    width: int,
    dim: int,
)
    requires
        0 <= c1 < width,
        0 <= c2 < width,
        0 <= d1 < dim,
        0 <= d2 < dim,
        place(r1, c1, d1, width, dim) == place(r2, c2, d2, width, dim),
    ensures
        r1 == r2,
        c1 == c2,
        d1 == d2,
{
    let a = r1 * width + c1;
    let b = r2 * width + c2;
    vstd::arithmetic::div_mod::lemma_fundamental_div_mod_converse(a * dim + d1, dim, a, d1);
    vstd::arithmetic::div_mod::lemma_fundamental_div_mod_converse(b * dim + d2, dim, b, d2);
    vstd::arithmetic::div_mod::lemma_fundamental_div_mod_converse(a, width, r1, c1);
    vstd::arithmetic::div_mod::lemma_fundamental_div_mod_converse(b, width, r2, c2);
}

/// The source element at place `p` enters element `(row, col, d)` of the output,
/// through cell `k1` of the vertical window and cell `k2` of the horizontal one.
pub open spec fn enters(
    r: Resize,
    windows: Seq<Window>,
    row: int,
    col: int,
    d: int,
    k1: int,
    k2: int,
    p: int,
) -> bool {
    &&& 0 <= row < r.dst && 0 <= col < r.dst && 0 <= d < r.dim
    &&& 0 <= k1 < windows[row].len
    &&& 0 <= k2 < windows[col].len
    &&& p == place(windows[row].lo + k1, windows[col].lo + k2, d, r.src as int, r.dim as int)
}

/// Channels never mix: everything that enters an element of channel `d` is of
/// channel `d` of the source, and in the source.
pub proof fn law_channels_never_mix(
    r: Resize,
    windows: Seq<Window>,
    row: int,
    col: int,
    d: int,
    k1: int,
    k2: int,
    p: int,
)
    requires
        r.windows_ok(windows),
        enters(r, windows, row, col, d, k1, k2, p),
    ensures
        p % r.dim as int == d,
        0 <= p < r.src * r.src * r.dim,
{
    let (y, x) = (windows[row].lo + k1, windows[col].lo + k2);
    lemma_place(y, x, d, r.src as int, r.src as int, r.dim as int);
    let cell = y * r.src + x;
    vstd::arithmetic::div_mod::lemma_fundamental_div_mod_converse(p, r.dim as int, cell, d);
}

} // verus!
