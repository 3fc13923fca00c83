//! Additive attention masks that are made on the host.
use vstd::arithmetic::div_mod::lemma_fundamental_div_mod_converse;
use vstd::prelude::*;

use crate::dtype::DType;
use crate::shape::{d2, d4, sat_sum, saturating_sum, Shape};
use crate::tape::{bin, leaf, mask_val, un, Op, Tape, Tensor, Val};

verus! {

/// Query `i` may not see key `j`: it lies ahead, or further back than the
/// window reaches.
pub open spec fn blocked(i: int, j: int, window: Option<usize>) -> bool {
    i < j || (window matches Some(w) && j + w < i)
}

/// Query `i` of a chunk that ends at the last of the keys may not see key `j`.
pub open spec fn blocked_after(i: int, j: int, offset: int) -> bool {
    j > i + offset
}

/// A square of `n` by `n` cells, row by row.
pub open spec fn square_cells(n: usize, window: Option<usize>) -> Seq<bool> {
    Seq::new((n * n) as nat, |c: int| blocked(c / n as int, c % n as int, window))
}

/// `q_len` rows of `k_len` cells, for queries that are the last of the keys.
pub open spec fn chunk_cells(q_len: usize, k_len: usize) -> Seq<bool> {
    Seq::new(
        (q_len * k_len) as nat,
        |c: int| blocked_after(c / k_len as int, c % k_len as int, k_len - q_len),
    )
}

proof fn lemma_cell(i: int, j: int, n: int, c: int)
    requires
        0 <= j < n,
        0 <= i,
        c == i * n + j,
    ensures
        c / n == i,
        c % n == j,
{
    lemma_fundamental_div_mod_converse(c, n, i, j);
}

/// The cells of a causal mask over `n` positions, sliding or not.
pub fn square_mask(n: usize, window: Option<usize>) -> (cells: Vec<bool>)
    requires
        n * n <= usize::MAX,
    ensures
        cells@ == square_cells(n, window),
{
    let mut cells: Vec<bool> = Vec::new();
    let mut i: usize = 0;
    while i < n
        invariant
            i <= n,
            n * n <= usize::MAX,
            cells.len() == i * n,
            forall|c: int|
                0 <= c < cells.len() ==> #[trigger] cells[c] == blocked(
                    c / n as int,
                    c % n as int,
                    window,
                ),
        decreases n - i,
    {
        let mut j: usize = 0;
        while j < n
            invariant
                i < n,
                j <= n,
                cells.len() == i * n + j,
                forall|c: int|
                    0 <= c < cells.len() ==> #[trigger] cells[c] == blocked(
                        c / n as int,
                        c % n as int,
                        window,
                    ),
            decreases n - j,
        {
            let b = match window {
                Some(w) => i < j || (i > j && i - j > w),
                None => i < j,
            };
            proof {
                lemma_cell(i as int, j as int, n as int, i * n + j);
            }
            cells.push(b);
            j += 1;
        }
        assert((i + 1) * n == i * n + n) by (nonlinear_arith);
        i += 1;
    }
    assert(cells@ =~= square_cells(n, window));
    cells
}

/// The cells of a causal mask for `q_len` queries that are the last of `k_len`
/// keys.
pub fn chunk_mask(q_len: usize, k_len: usize) -> (cells: Vec<bool>)
    requires
        q_len <= k_len,
        q_len * k_len <= usize::MAX,
    ensures
        cells@ == chunk_cells(q_len, k_len),
{
    let offset: usize = k_len - q_len;
    let mut cells: Vec<bool> = Vec::new();
    let mut i: usize = 0;
    assert(0 * k_len == 0) by (nonlinear_arith);
    while i < q_len
        invariant
            i <= q_len <= k_len,
            offset == k_len - q_len,
            cells.len() == i * k_len,
            forall|c: int|
                0 <= c < cells.len() ==> #[trigger] cells[c] == blocked_after(
                    c / k_len as int,
                    c % k_len as int,
                    offset as int,
                ),
        decreases q_len - i,
    {
        let mut j: usize = 0;
        while j < k_len
            invariant
                i < q_len <= k_len,
                j <= k_len,
                offset == k_len - q_len,
                cells.len() == i * k_len + j,
                forall|c: int|
                    0 <= c < cells.len() ==> #[trigger] cells[c] == blocked_after(
                        c / k_len as int,
                        c % k_len as int,
                        offset as int,
                    ),
            decreases k_len - j,
        {
            proof {
                lemma_cell(i as int, j as int, k_len as int, i * k_len + j);
            }
            cells.push(j > i + offset);
            j += 1;
        }
        assert((i + 1) * k_len == i * k_len + k_len) by (nonlinear_arith);
        i += 1;
    }
    assert(cells@ =~= chunk_cells(q_len, k_len));
    cells
}

/// The causal mask of `q_len` queries at the end of `k_len` keys.
pub open spec fn causal(q_len: usize, k_len: usize) -> Val {
    un(Op::Reshape(d4(1, 1, q_len, k_len)), mask_val(q_len, k_len, chunk_cells(q_len, k_len)))
}

pub fn causal_mask(t: &mut Tape, q_len: usize, k_len: usize) -> (r: Tensor)
    requires
        q_len <= k_len,
        q_len * k_len <= usize::MAX,
    ensures
        final(t).computed(*old(t)),
        final(t).has(r),
        r@ == causal(q_len, k_len),
{
    let cells = chunk_mask(q_len, k_len);
    let m = t.mask(q_len, k_len, cells);
    t.un(Op::Reshape(d4(1, 1, q_len, k_len)), m)
}

/// The mask of a decoder pass over `tgt_len` positions after `offset` cached
/// ones, which every query sees: `[b_size, 1, tgt_len, tgt_len + offset]`.
pub open spec fn decoder_mask(
    b_size: usize,
    tgt_len: usize,
    offset: usize,
    window: Option<usize>,
    dtype: DType,
) -> Val {
    let square = mask_val(tgt_len, tgt_len, square_cells(tgt_len, window));
    let zeros = leaf(Op::Zeros { shape: d2(tgt_len, offset), dtype: DType::F32 });
    un(
        Op::ToDType(dtype),
        un(
            Op::Expand(d4(b_size, 1, tgt_len, sat_sum(tgt_len, offset))),
            if offset > 0 { bin(Op::Cat(1), zeros, square) } else { square },
        ),
    )
}

/// Records the mask of a decoder pass.
pub fn prepare_decoder_attention_mask(
    t: &mut Tape,
    b_size: usize,
    tgt_len: usize,
    seqlen_offset: usize,
    sliding_window: Option<usize>,
    dtype: DType,
) -> (r: Tensor)
    requires
        tgt_len * tgt_len <= usize::MAX,
    ensures
        final(t).computed(*old(t)),
        final(t).has(r),
        r@ == decoder_mask(b_size, tgt_len, seqlen_offset, sliding_window, dtype),
{
    let cells = square_mask(tgt_len, sliding_window);
    let mask = t.mask(tgt_len, tgt_len, cells);
    let mask = if seqlen_offset > 0 {
        let mask0 = t.leaf(Op::Zeros { shape: d2(tgt_len, seqlen_offset), dtype: DType::F32 });
        t.bin(Op::Cat(1), mask0, mask)
    } else {
        mask
    };
    let wide = t.un(
        Op::Expand(d4(b_size, 1, tgt_len, saturating_sum(tgt_len, seqlen_offset))),
        mask,
    );
    t.un(Op::ToDType(dtype), wide)
}

/// Cell `(i, c)` of a decoder mask before it is widened over the batch.
pub open spec fn decoder_cell(i: int, c: int, offset: int, window: Option<usize>) -> bool {
    c >= offset && blocked(i, c - offset, window)
}

/// The cells of a decoder mask, in every reading of cells in which zeros are open,
/// columns are joined and widening changes nothing: query `i`, at position
/// `offset + i`, sees key `c` exactly if that is not later, and, under a window, if
/// both are new and lie at most the window apart, or the key was cached.
pub proof fn law_decoder_mask_cells<E>(
    f: spec_fn(Val, int, int) -> E,
    cell: spec_fn(bool) -> E,
    b_size: usize,
    tgt_len: usize,
    offset: usize,
    window: Option<usize>,
    dtype: DType,
    i: int,
    c: int,
)
    requires
        0 <= i < tgt_len,
        0 <= c < tgt_len + offset,
        forall|r: usize, n: usize, cells: Seq<bool>, i: int, j: int|
            0 <= i < r && 0 <= j < n ==> #[trigger] f(mask_val(r, n, cells), i, j) == cell(
                cells[i * n + j],
            ),
        forall|s: Shape, d: DType, i: int, j: int|
            #[trigger] f(leaf(Op::Zeros { shape: s, dtype: d }), i, j) == cell(false),
        forall|a: Val, b: Val, i: int, j: int|
            #[trigger] f(bin(Op::Cat(1), a, b), i, j) == (if j < a.shape.d1 {
                f(a, i, j)
            } else {
                f(b, i, j - a.shape.d1)
            }),
        forall|s: Shape, a: Val, i: int, j: int|
            #[trigger] f(un(Op::Expand(s), a), i, j) == f(a, i, j),
        forall|d: DType, a: Val, i: int, j: int|
            #[trigger] f(un(Op::ToDType(d), a), i, j) == f(a, i, j),
    ensures
        f(decoder_mask(b_size, tgt_len, offset, window, dtype), i, c) == cell(
            c > offset + i || (c >= offset && (window matches Some(w) && offset + i - c > w)),
        ),
{
    let square = mask_val(tgt_len, tgt_len, square_cells(tgt_len, window));
    let zeros = leaf(Op::Zeros { shape: d2(tgt_len, offset), dtype: DType::F32 });
    let joined = if offset > 0 {
        bin(Op::Cat(1), zeros, square)
    } else {
        square
    };
    let wide = un(Op::Expand(d4(b_size, 1, tgt_len, sat_sum(tgt_len, offset))), joined);
    assert(f(un(Op::ToDType(dtype), wide), i, c) == f(wide, i, c));
    assert(f(wide, i, c) == f(joined, i, c));
    if offset > 0 {
        assert(f(bin(Op::Cat(1), zeros, square), i, c) == (if c < zeros.shape.d1 {
            f(zeros, i, c)
        } else {
            f(square, i, c - zeros.shape.d1)
        }));
    }
    if c >= offset {
        let j = c - offset;
        assert(f(square, i, j) == cell(square_cells(tgt_len, window)[i * tgt_len + j]));
        lemma_cell(i, j, tgt_len as int, i * tgt_len + j);
        assert(0 <= i * tgt_len + j < tgt_len * tgt_len) by (nonlinear_arith)
            requires
                0 <= i < tgt_len,
                0 <= j < tgt_len,
        ;
    }
}

/// The mask of a chunk at the end of its keys keeps query `i` from the keys after its
/// own position, and from no other.
pub proof fn law_chunk_mask_cells(q_len: usize, k_len: usize, i: int, j: int)
    requires
        0 <= i < q_len,
        0 <= j < k_len,
    ensures
        chunk_cells(q_len, k_len)[i * k_len + j] == (j > i + (k_len - q_len)),
{
    lemma_cell(i, j, k_len as int, i * k_len + j);
    assert(0 <= i * k_len + j < q_len * k_len) by (nonlinear_arith)
        requires
            0 <= i < q_len,
            0 <= j < k_len,
    ;
}

/// Without a window, a decoder mask blocks the same cells as the mask of a
/// chunk at the end of its keys.
pub proof fn law_masks_agree(i: int, c: int, offset: int)
    requires
        0 <= i,
        0 <= offset,
    ensures
        decoder_cell(i, c, offset, None) == blocked_after(i, c, offset),
{
}

/// A window only blocks more, and never a query's own position.
pub proof fn law_window_only_blocks(i: int, c: int, offset: int, window: usize)
    requires
        0 <= i,
        0 <= offset,
    ensures
        decoder_cell(i, c, offset, None) ==> decoder_cell(i, c, offset, Some(window)),
        !decoder_cell(i, i + offset, offset, Some(window)),
{
}

} // verus!
