//! Which rows of keys and values attention sees.
//!
//! A static buffer is filled row by row, at positions that are counted on the
//! device, and read through a mask; a growing cache is appended to and read as
//! a whole. Here is what makes the two comparable: the origin of each row, the
//! cells that a mask lets through, and a form of terms in which a lookup at a
//! counted position and a slice at that position are the same.
use vstd::prelude::*;

use crate::kv_cache::KvCache;
use crate::masks::blocked;
use crate::static_decode::counted;
use crate::tape::{Op, Term};

verus! {

/// Where a row comes from.
pub enum Row {
    /// Written, or appended, on its own.
    New(Term),
    /// A row of a value that came as a whole.
    Of(Term, int),
}

/// Row `i` of a static buffer: from the write that covered it last.
pub open spec fn row(content: Term, i: int) -> Row
    decreases content,
{
    match content {
        Term::Tri(Op::KvRow, c, x, p) => match counted(*p) {
            Some(at) => if at == i {
                Row::New(*x)
            } else {
                row(*c, i)
            },
            None => Row::Of(content, i),
        },
        Term::Bin(Op::KvRows { pos, len }, c, x) => if pos <= i < pos + len {
            Row::Of(*x, i - pos)
        } else {
            row(*c, i)
        },
        _ => Row::Of(content, i),
    }
}

/// Position `i` of a growing cache of `n` positions that held `base` before it
/// was appended to one position at a time.
pub open spec fn kept(base: Term, content: Term, i: int, n: int) -> Row
    decreases content,
{
    if content == base {
        Row::Of(base, i)
    } else {
        match content {
            Term::Bin(op, c, x) => if !(op is CacheAppend || op == Op::Cat(2)) {
                Row::Of(content, i)
            } else if i == n - 1 {
                Row::New(*x)
            } else {
                kept(base, *c, i, n - 1)
            },
            _ => Row::Of(content, i),
        }
    }
}

/// `t` with every lookup at a counted position written as a slice.
pub open spec fn resolved(t: Term) -> Term
    decreases t,
{
    match t {
        Term::Un(op, a) => Term::Un(op, Box::new(resolved(*a))),
        Term::Bin(op, a, b) => match counted(*b) {
            Some(at) if op == Op::IndexSelect(0) => Term::Un(
                Op::Narrow { dim: 0, start: at as usize, len: 1 },
                Box::new(resolved(*a)),
            ),
            _ => Term::Bin(op, Box::new(resolved(*a)), Box::new(resolved(*b))),
        },
        Term::Tri(op, a, b, c) => Term::Tri(
            op,
            Box::new(resolved(*a)),
            Box::new(resolved(*b)),
            Box::new(resolved(*c)),
        ),
        _ => t,
    }
}

/// A value without a change of its extents at the end.
pub open spec fn bare(t: Term) -> Term {
    match t {
        Term::Un(Op::Reshape(_), a) => *a,
        _ => t,
    }
}

/// A row of a static buffer and a position of a growing cache hold the same.
pub open spec fn agree(s: Row, e: Row) -> bool {
    match (s, e) {
        (Row::New(a), Row::New(b)) => resolved(bare(a)) == resolved(b),
        (Row::Of(a, i), Row::Of(b, j)) => i == j && resolved(bare(a)) == resolved(b),
        _ => false,
    }
}

/// How many values a value was joined to, one after the other.
pub open spec fn depth(t: Term) -> nat
    decreases t,
{
    match t {
        Term::Bin(_, a, _) => depth(*a) + 1,
        _ => 0,
    }
}

/// The first `n` rows of a static buffer are the `n` positions of a growing
/// cache that held `base` once.
pub open spec fn rows_agree(s: Term, base: Term, e: Term, n: int) -> bool {
    &&& depth(base) <= depth(e)
    &&& forall|i: int| 0 <= i < n ==> agree(#[trigger] row(s, i), kept(base, e, i, n))
}

/// One more row, written at the counted position and appended: still the same.
pub proof fn law_row_joins(s: Term, base: Term, e: Term, n: int, x: Term, y: Term, pos: Term, op: Op)
    requires
        0 <= n,
        rows_agree(s, base, e, n),
        counted(pos) == Some(n),
        op is CacheAppend || op == Op::Cat(2),
        resolved(bare(x)) == resolved(y),
    ensures
        rows_agree(
            Term::Tri(Op::KvRow, Box::new(s), Box::new(x), Box::new(pos)),
            base,
            Term::Bin(op, Box::new(e), Box::new(y)),
            n + 1,
        ),
{
    let s1 = Term::Tri(Op::KvRow, Box::new(s), Box::new(x), Box::new(pos));
    let e1 = Term::Bin(op, Box::new(e), Box::new(y));
    assert(depth(e1) == depth(e) + 1);
    assert forall|i: int| 0 <= i < n + 1 implies agree(
        #[trigger] row(s1, i),
        kept(base, e1, i, n + 1),
    ) by {
        if i < n {
            assert(row(s1, i) == row(s, i));
        }
    }
}

/// Row `i` of a static buffer in a reading `f` of the rows of values.
pub open spec fn reading<V>(content: Term, i: int, f: spec_fn(Term, int) -> V) -> V {
    match row(content, i) {
        Row::New(x) => f(x, 0),
        Row::Of(x, k) => f(x, k),
    }
}

/// `content` after a chunk of `len` rows was written at `pos`.
pub open spec fn chunk_written(content: Term, pos: usize, len: usize, x: Term) -> Term {
    Term::Bin(Op::KvRows { pos, len }, Box::new(content), Box::new(x))
}

/// Writing two adjacent chunks leaves the rows that writing them joined leaves:
/// in every reading in which the rows of `z` are those of `x` and then those of
/// `y`, the buffer reads the same.
pub proof fn law_adjacent_chunks_join<V>(
    content: Term,
    pos: usize,
    lens: (usize, usize),
    x: Term,
    y: Term,
    z: Term,
    f: spec_fn(Term, int) -> V,
    i: int,
)
    requires
        pos + lens.0 + lens.1 <= usize::MAX,
        forall|k: int|
            0 <= k < lens.0 + lens.1 ==> #[trigger] f(z, k) == (if k < lens.0 {
                f(x, k)
            } else {
                f(y, k - lens.0)
            }),
    ensures
        reading(
            chunk_written(
                chunk_written(content, pos, lens.0, x),
                (pos + lens.0) as usize,
                lens.1,
                y,
            ),
            i,
            f,
        ) == reading(chunk_written(content, pos, (lens.0 + lens.1) as usize, z), i, f),
{
    let first = chunk_written(content, pos, lens.0, x);
    assert(row(chunk_written(first, (pos + lens.0) as usize, lens.1, y), i) == (if pos + lens.0 <= i
        < pos + lens.0 + lens.1 {
        Row::Of(y, i - pos - lens.0)
    } else {
        row(first, i)
    }));
    assert(row(first, i) == (if pos <= i < pos + lens.0 {
        Row::Of(x, i - pos)
    } else {
        row(content, i)
    }));
    if pos <= i < pos + lens.0 + lens.1 {
        assert(f(z, i - pos) == (if i - pos < lens.0 {
            f(x, i - pos)
        } else {
            f(y, i - pos - lens.0)
        }));
    }
}

/// `content` after one row each of `xs` was written, at the positions `at`.
pub open spec fn rows_written(content: Term, xs: Seq<Term>, at: Seq<Term>, n: int) -> Term
    decreases n,
{
    if n <= 0 {
        content
    } else {
        Term::Tri(
            Op::KvRow,
            Box::new(rows_written(content, xs, at, n - 1)),
            Box::new(xs[n - 1]),
            Box::new(at[n - 1]),
        )
    }
}

/// Rows written one by one from `pos` on are found where they went, and the
/// other rows stay.
proof fn lemma_rows_written(content: Term, pos: int, xs: Seq<Term>, at: Seq<Term>, n: int, i: int)
    requires
        0 <= n <= xs.len(),
        forall|k: int| 0 <= k < n ==> counted(#[trigger] at[k]) == Some(pos + k),
    ensures
        row(rows_written(content, xs, at, n), i) == (if pos <= i < pos + n {
            Row::New(xs[i - pos])
        } else {
            row(content, i)
        }),
    decreases n,
{
    if n > 0 {
        lemma_rows_written(content, pos, xs, at, n - 1, i);
        assert(counted(at[n - 1]) == Some(pos + n - 1));
    }
}

/// A chunk leaves the rows that as many single rows leave, written one by one
/// at counted positions: in every reading in which row `k` of the chunk is the
/// `k`-th single row, the buffer reads the same.
pub proof fn law_chunk_is_its_rows<V>(
    content: Term,
    pos: usize,
    len: usize,
    x: Term,
    xs: Seq<Term>,
    at: Seq<Term>,
    f: spec_fn(Term, int) -> V,
    i: int,
)
    requires
        xs.len() == len,
        forall|k: int| 0 <= k < len ==> counted(#[trigger] at[k]) == Some(pos + k),
        forall|k: int| 0 <= k < len ==> f(x, k) == f(#[trigger] xs[k], 0),
    ensures
        reading(chunk_written(content, pos, len, x), i, f) == reading(
            rows_written(content, xs, at, len as int),
            i,
            f,
        ),
{
    lemma_rows_written(content, pos as int, xs, at, len as int, i);
    if pos <= i < pos + len {
        assert(f(x, i - pos) == f(xs[i - pos], 0));
    }
}

/// The cells of a mask row that was refreshed at a counted position: key `j` is
/// kept from the query.
pub open spec fn cell_blocked(mask: Term, j: int) -> Option<bool> {
    match mask {
        Term::Un(Op::MaskRow { window }, p) => match counted(*p) {
            Some(at) => Some(
                blocked(
                    at,
                    j,
                    if window > 0 {
                        Some(window)
                    } else {
                        None
                    },
                ),
            ),
            None => None,
        },
        _ => None,
    }
}

/// At position `n`, a mask row lets through what a cache hands out after one
/// more position: everything for a growing cache, the last `window + 1`
/// positions for a rotating one that keeps as many.
pub proof fn law_mask_lets_through(c: KvCache, pos: Term, window: usize, j: int)
    requires
        counted(pos) == Some(c.len as int),
        c.len < usize::MAX,
        0 <= j,
        c.rotating ==> window > 0 && (c.max_seq == window + 1 || c.len < c.max_seq && c.len
            <= window),
        !c.rotating ==> window == 0,
    ensures
        cell_blocked(Term::Un(Op::MaskRow { window }, Box::new(pos)), j) == Some(
            !(c.len + 1 - c.view_len(1) <= j <= c.len),
        ),
{
}

} // verus!
