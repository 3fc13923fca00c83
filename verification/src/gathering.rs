//! What a query gathers from keys and values.
//!
//! A static buffer is read as a whole through a mask, a growing cache hands out
//! what it holds, perhaps as a ring. Both come down to the same keys and values,
//! one after the other.
use vstd::prelude::*;

use crate::dtype::DType;
use crate::positions::{
    attended, blocked_score, lemma_gathered_next, lemma_gathered_none, lemma_masked, Meaning,
};
use crate::tape::{un, Op, Val};

verus! {

impl<V> Meaning<V> {
    /// What is gathered does not depend on the order of the keys.
    pub open spec fn mixes(self) -> bool {
        forall|g: V, c: V, v: V, d: V, w: V|
            (self.gather)((self.gather)(g, c, v), d, w) == #[trigger] (self.gather)(
                (self.gather)(g, d, w),
                c,
                v,
            )
    }

    /// Copies of the heads of keys and values, one for every head of the queries,
    /// score and count as the heads themselves.
    pub open spec fn pairs_heads(self) -> bool {
        &&& forall|n: usize, q: V, k: V| #[trigger]
            (self.score)(q, (self.un)(Op::RepeatKv(n), k)) == (self.score)(q, k)
        &&& forall|n: usize, g: V, c: V, v: V| #[trigger]
            (self.gather)(g, c, (self.un)(Op::RepeatKv(n), v)) == (self.gather)(g, c, v)
        &&& forall|s: crate::shape::Shape, q: V, k: V| #[trigger]
            (self.score)(q, (self.un)(Op::Expand(s), (self.un)(Op::Unsqueeze(2), k)))
                == (self.score)(q, k)
        &&& forall|s: crate::shape::Shape, g: V, c: V, v: V| #[trigger]
            (self.gather)(g, c, (self.un)(Op::Expand(s), (self.un)(Op::Unsqueeze(2), v)))
                == (self.gather)(g, c, v)
    }

    /// Scaling a key scales its score.
    pub open spec fn scales_keys(self) -> bool {
        forall|s: crate::tape::Scalar, q: V, k: V| #[trigger]
            (self.score)(q, (self.un)(Op::MulScalar(s), k)) == (self.un)(
                Op::MulScalar(s),
                (self.score)(q, k),
            )
    }

    /// `n` items from `from` on, gathered after `g`.
    pub open spec fn taken(self, item: spec_fn(int) -> (V, V), from: int, n: int, g: V) -> V
        decreases n,
    {
        if n <= 0 {
            g
        } else {
            (self.gather)(
                self.taken(item, from, n - 1, g),
                item(from + n - 1).0,
                item(from + n - 1).1,
            )
        }
    }
}

/// Items gathered in two parts.
pub proof fn lemma_taken_parts<V>(
    m: Meaning<V>,
    item: spec_fn(int) -> (V, V),
    from: int,
    a: int,
    b: int,
    g: V,
)
    requires
        0 <= a,
        0 <= b,
    ensures
        m.taken(item, from, a + b, g) == m.taken(item, from + a, b, m.taken(item, from, a, g)),
    decreases b,
{
    if b > 0 {
        lemma_taken_parts(m, item, from, a, b - 1, g);
        assert(from + a + (b - 1) == from + (a + b) - 1);
    }
}

/// One item more may come first or last.
proof fn lemma_taken_one<V>(
    m: Meaning<V>,
    item: spec_fn(int) -> (V, V),
    from: int,
    n: int,
    g: V,
    c: V,
    v: V,
)
    requires
        m.mixes(),
    ensures
        (m.gather)(m.taken(item, from, n, g), c, v) == m.taken(item, from, n, (m.gather)(g, c, v)),
    decreases n,
{
    if n > 0 {
        lemma_taken_one(m, item, from, n - 1, g, c, v);
        let (d, w) = item(from + n - 1);
        let h = m.taken(item, from, n - 1, g);
        assert((m.gather)((m.gather)(h, d, w), c, v) == (m.gather)((m.gather)(h, c, v), d, w));
    }
}

/// Two parts may be exchanged.
proof fn lemma_taken_swap<V>(
    m: Meaning<V>,
    item: spec_fn(int) -> (V, V),
    a: (int, int),
    b: (int, int),
    g: V,
)
    requires
        m.mixes(),
    ensures
        m.taken(item, a.0, a.1, m.taken(item, b.0, b.1, g)) == m.taken(
            item,
            b.0,
            b.1,
            m.taken(item, a.0, a.1, g),
        ),
    decreases b.1,
{
    if b.1 > 0 {
        let less = (b.0, b.1 - 1);
        lemma_taken_swap(m, item, a, less, g);
        let (c, v) = item(b.0 + b.1 - 1);
        lemma_taken_one(m, item, a.0, a.1, m.taken(item, b.0, b.1 - 1, g), c, v);
    }
}

/// Items that count alike give the same.
pub proof fn lemma_taken_alike<V>(
    m: Meaning<V>,
    a: spec_fn(int) -> (V, V),
    b: spec_fn(int) -> (V, V),
    from: (int, int),
    n: int,
    g: V,
)
    requires
        forall|k: int| 0 <= k < n ==> #[trigger] counts_at(m, a, b, from, k),
    ensures
        m.taken(a, from.0, n, g) == m.taken(b, from.1, n, g),
    decreases n,
{
    if n > 0 {
        lemma_taken_alike(m, a, b, from, n - 1, g);
        assert(counts_at(m, a, b, from, n - 1));
        assert(from.0 + (n - 1) == from.0 + n - 1 && from.1 + (n - 1) == from.1 + n - 1);
    }
}

/// Two items count alike, whatever was gathered before.
pub open spec fn counts<V>(m: Meaning<V>, a: (V, V), b: (V, V)) -> bool {
    forall|g: V| #[trigger] (m.gather)(g, a.0, a.1) == (m.gather)(g, b.0, b.1)
}

proof fn lemma_counts<V>(m: Meaning<V>, a: (V, V), b: (V, V), g: V)
    requires
        counts(m, a, b),
    ensures
        (m.gather)(g, a.0, a.1) == (m.gather)(g, b.0, b.1),
{
}

/// The items at `from + k` count alike.
pub open spec fn counts_at<V>(
    m: Meaning<V>,
    a: spec_fn(int) -> (V, V),
    b: spec_fn(int) -> (V, V),
    from: (int, int),
    k: int,
) -> bool {
    counts(m, a(from.0 + k), b(from.1 + k))
}

/// Item `k` of a ring that begins `turn` items after `from`.
pub open spec fn rings<V>(
    m: Meaning<V>,
    ring: spec_fn(int) -> (V, V),
    item: spec_fn(int) -> (V, V),
    from: int,
    n: int,
    turn: int,
    k: int,
) -> bool {
    counts(m, ring(k), item(from + (k + turn) % n))
}

proof fn lemma_wrapped(k: int, turn: int, n: int)
    requires
        0 <= k < n,
    ensures
        ({
            let r = turn % n;
            &&& 0 <= r < n
            &&& (k + turn) % n == (if k < n - r {
                k + r
            } else {
                k + r - n
            })
        }),
{
    let (t, r) = (turn / n, turn % n);
    vstd::arithmetic::div_mod::lemma_fundamental_div_mod(turn, n);
    vstd::arithmetic::div_mod::lemma_mod_bound(turn, n);
    if k < n - r {
        assert(k + turn == t * n + (k + r)) by (nonlinear_arith)
            requires
                turn == n * t + r,
        ;
        vstd::arithmetic::div_mod::lemma_fundamental_div_mod_converse(k + turn, n, t, k + r);
    } else {
        assert(k + turn == (t + 1) * n + (k + r - n)) by (nonlinear_arith)
            requires
                turn == n * t + r,
        ;
        vstd::arithmetic::div_mod::lemma_fundamental_div_mod_converse(
            k + turn,
            n,
            t + 1,
            k + r - n,
        );
    }
}

/// A ring of items gives what the items give in order.
pub proof fn lemma_taken_ring<V>(
    m: Meaning<V>,
    ring: spec_fn(int) -> (V, V),
    item: spec_fn(int) -> (V, V),
    from: int,
    n: int,
    turn: int,
    g: V,
)
    requires
        m.mixes(),
        n >= 0,
        forall|k: int| 0 <= k < n ==> #[trigger] rings(m, ring, item, from, n, turn, k),
    ensures
        m.taken(ring, 0, n, g) == m.taken(item, from, n, g),
{
    if n > 0 {
        let r = turn % n;
        lemma_wrapped(0, turn, n);
        lemma_taken_parts(m, ring, 0, n - r, r, g);
        assert forall|k: int| 0 <= k < n - r implies #[trigger] counts_at(
            m,
            ring,
            item,
            (0, from + r),
            k,
        ) by {
            lemma_wrapped(k, turn, n);
            assert(rings(m, ring, item, from, n, turn, k));
            assert(from + (k + r) == from + r + k);
        }
        lemma_taken_alike(m, ring, item, (0, from + r), n - r, g);
        let h = m.taken(ring, 0, n - r, g);
        assert forall|k: int| 0 <= k < r implies #[trigger] counts_at(
            m,
            ring,
            item,
            (n - r, from),
            k,
        ) by {
            lemma_wrapped(n - r + k, turn, n);
            assert(rings(m, ring, item, from, n, turn, n - r + k));
        }
        lemma_taken_alike(m, ring, item, (n - r, from), r, h);
        lemma_taken_swap(m, item, (from, r), (from + r, n - r), g);
        lemma_taken_parts(m, item, from, r, n - r, g);
    }
}

/// What a query sees of key `j`: `item`, or nothing where a mask blocks it.
pub open spec fn shows<V>(
    m: Meaning<V>,
    scores: Val,
    v: Val,
    i: int,
    j: int,
    item: spec_fn(int) -> (V, V),
    window: (int, int),
) -> bool {
    let cell = m.cell_at(scores.term, i, j);
    if window.0 <= j < window.1 {
        counts(m, (cell, m.at(v.term, j)), item(j))
    } else {
        blocked_score(m, cell)
    }
}

/// A query that sees the items of a window gathers them.
pub proof fn lemma_window<V>(
    m: Meaning<V>,
    to: Option<DType>,
    scores: Val,
    v: Val,
    i: int,
    n: int,
    item: spec_fn(int) -> (V, V),
    window: (int, int),
)
    requires
        m.masks(),
        0 <= window.0 <= window.1,
        forall|j: int| 0 <= j < n ==> #[trigger] shows(m, scores, v, i, j, item, window),
    ensures
        n >= 0 ==> m.gathered(attended(to, scores, v).term, i, n) == m.taken(
            item,
            window.0,
            if n <= window.0 {
                0
            } else if n < window.1 {
                n - window.0
            } else {
                window.1 - window.0
            },
            m.nothing,
        ),
    decreases n,
{
    let t = attended(to, scores, v).term;
    if n <= 0 {
        if n == 0 {
            lemma_gathered_none(m, t, i);
        }
    } else {
        lemma_window(m, to, scores, v, i, n - 1, item, window);
        lemma_gathered_next(m, to, scores, v, i, n);
        assert(shows(m, scores, v, i, n - 1, item, window));
        let cell = m.cell_at(scores.term, i, n - 1);
        let before = m.gathered(t, i, n - 1);
        if window.0 <= n - 1 < window.1 {
            lemma_counts(m, (cell, m.at(v.term, n - 1)), item(n - 1), before);
            assert(window.0 + (n - window.0) - 1 == n - 1);
        } else {
            let x = choose|x: V| cell == #[trigger] (m.bin)(Op::BroadcastAdd, x, (m.cell)(true));
            lemma_masked(m, before, x, true, m.at(v.term, n - 1));
        }
    }
}

/// What a query that sees the items of a window gets.
pub proof fn lemma_sees<V>(
    m: Meaning<V>,
    to: Option<DType>,
    scores: Val,
    v: Val,
    i: int,
    item: spec_fn(int) -> (V, V),
    window: (int, int),
)
    requires
        m.masks(),
        0 <= window.0 <= window.1 <= m.len(v.term),
        forall|j: int| 0 <= j < m.len(v.term) ==> #[trigger] shows(
            m,
            scores,
            v,
            i,
            j,
            item,
            window,
        ),
    ensures
        m.at(attended(to, scores, v).term, i) == (m.mean)(
            m.taken(item, window.0, window.1 - window.0, m.nothing),
        ),
{
    let n = m.len(v.term);
    lemma_gathered_next(m, to, scores, v, i, 1);
    lemma_window(m, to, scores, v, i, n, item, window);
}

} // verus!
