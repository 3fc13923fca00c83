//! Sums over the experts that were chosen for a token.
//!
//! Each expert runs once, on the tokens that chose it, and its outputs are added
//! to the rows of these tokens. What a token gets is the sum over its own choices.
use vstd::prelude::*;

use crate::gemma4::alike::{folded, lemma_folded_parts};
use crate::positions::Meaning;
use crate::routing::{row_hits, token_ids};
use crate::tape::{ids_val, tri, Op, Term, Val};

verus! {

/// `base` and the first `n` parts added to it, one after the other.
pub open spec fn summed<V>(m: Meaning<V>, base: V, part: spec_fn(int) -> V, n: int) -> V
    decreases n,
{
    if n <= 0 {
        base
    } else {
        (m.bin)(Op::Add, summed(m, base, part, n - 1), part(n - 1))
    }
}

/// `base` and those of the first `n` parts whose expert is one of `lo .. hi`.
spec fn some_of<V>(
    m: Meaning<V>,
    base: V,
    row: Seq<usize>,
    lo: int,
    hi: int,
    part: spec_fn(int) -> V,
    n: int,
) -> V
    decreases n,
{
    if n <= 0 {
        base
    } else {
        let before = some_of(m, base, row, lo, hi, part, n - 1);
        if lo <= row[n - 1] < hi {
            (m.bin)(Op::Add, before, part(n - 1))
        } else {
            before
        }
    }
}

/// A part may come first or last.
proof fn lemma_some_later<V>(
    m: Meaning<V>,
    base: V,
    v: V,
    row: Seq<usize>,
    lo: int,
    hi: int,
    part: spec_fn(int) -> V,
    n: int,
)
    requires
        m.sums(),
    ensures
        some_of(m, (m.bin)(Op::Add, base, v), row, lo, hi, part, n) == (m.bin)(
            Op::Add,
            some_of(m, base, row, lo, hi, part, n),
            v,
        ),
    decreases n,
{
    if n > 0 {
        lemma_some_later(m, base, v, row, lo, hi, part, n - 1);
        let s = some_of(m, base, row, lo, hi, part, n - 1);
        let p = part(n - 1);
        assert((m.bin)(Op::Add, (m.bin)(Op::Add, s, v), p) == (m.bin)(
            Op::Add,
            s,
            (m.bin)(Op::Add, v, p),
        ));
        assert((m.bin)(Op::Add, v, p) == (m.bin)(Op::Add, p, v));
        assert((m.bin)(Op::Add, (m.bin)(Op::Add, s, p), v) == (m.bin)(
            Op::Add,
            s,
            (m.bin)(Op::Add, p, v),
        ));
    }
}

/// One expert more.
proof fn lemma_some_next<V>(
    m: Meaning<V>,
    base: V,
    row: Seq<usize>,
    e: int,
    part: spec_fn(int) -> V,
    n: int,
)
    requires
        m.sums(),
        0 <= e,
    ensures
        some_of(m, base, row, 0, e + 1, part, n) == some_of(
            m,
            some_of(m, base, row, 0, e, part, n),
            row,
            e,
            e + 1,
            part,
            n,
        ),
    decreases n,
{
    if n > 0 {
        lemma_some_next(m, base, row, e, part, n - 1);
        if row[n - 1] < e {
            lemma_some_later(
                m,
                some_of(m, base, row, 0, e, part, n - 1),
                part(n - 1),
                row,
                e,
                e + 1,
                part,
                n - 1,
            );
        }
    }
}

/// All experts.
proof fn lemma_some_all<V>(
    m: Meaning<V>,
    base: V,
    row: Seq<usize>,
    e: int,
    part: spec_fn(int) -> V,
    n: int,
)
    requires
        0 <= n <= row.len(),
        forall|j: int| 0 <= j < row.len() ==> #[trigger] row[j] < e,
    ensures
        some_of(m, base, row, 0, e, part, n) == summed(m, base, part, n),
    decreases n,
{
    if n > 0 {
        lemma_some_all(m, base, row, e, part, n - 1);
        assert(row[n - 1] < e);
    }
}

proof fn lemma_some_none<V>(
    m: Meaning<V>,
    base: V,
    row: Seq<usize>,
    part: spec_fn(int) -> V,
    n: int,
)
    ensures
        some_of(m, base, row, 0, 0, part, n) == base,
    decreases n,
{
    if n > 0 {
        lemma_some_none(m, base, row, part, n - 1);
    }
}

/// The choices of a token that are expert `e`.
proof fn lemma_some_hits<V>(
    m: Meaning<V>,
    base: V,
    row: Seq<usize>,
    t: usize,
    e: usize,
    val: spec_fn(usize) -> V,
    part: spec_fn(int) -> V,
    n: int,
)
    requires
        0 <= n <= row.len() <= usize::MAX,
        forall|j: int| 0 <= j < row.len() && row[j] == e ==> #[trigger] part(j) == val(j as usize),
    ensures
        ({
            let own = row_hits(row, t, e, n);
            folded(m, base, own, t as int, val, own.len() as int) == some_of(
                m,
                base,
                row,
                e as int,
                e + 1,
                part,
                n,
            )
        }),
    decreases n,
{
    if n > 0 {
        lemma_some_hits(m, base, row, t, e, val, part, n - 1);
        if row[n - 1] == e {
            let before = row_hits(row, t, e, n - 1);
            let one = seq![(t, (n - 1) as usize)];
            assert(row_hits(row, t, e, n) =~= before + one);
            lemma_folded_parts(m, base, before, one, t as int, val, 1);
            assert(one[0] == (t, (n - 1) as usize));
            let f = folded(m, base, before, t as int, val, before.len() as int);
            assert(folded(m, f, one, t as int, val, 0) == f);
            assert(folded(m, f, one, t as int, val, 1) == (m.bin)(
                Op::Add,
                f,
                val((n - 1) as usize),
            ));
            assert(part(n - 1) == val((n - 1) as usize));
        }
    }
}

/// The rows of one expert, added up for token `t`.
pub proof fn lemma_added_rows<V>(
    m: Meaning<V>,
    before: Val,
    group: Seq<(usize, usize)>,
    c: Val,
    t: int,
    val: spec_fn(usize) -> V,
    n: int,
)
    requires
        0 <= n <= group.len(),
        0 <= t < 0x1_0000_0000,
        forall|k: int| 0 <= k < group.len() ==> (#[trigger] group[k]).0 < 0x1_0000_0000,
        forall|k: int|
            0 <= k < group.len() && (#[trigger] group[k]).0 == t ==> m.at(c.term, k) == val(
                group[k].1,
            ),
    ensures
        m.added(tri(Op::IndexAdd(0), before, ids_val(token_ids(group)), c).term, t, n) == folded(
            m,
            m.at(before.term, t),
            group,
            t,
            val,
            n,
        ),
        m.at(tri(Op::IndexAdd(0), before, ids_val(token_ids(group)), c).term, t) == m.added(
            tri(Op::IndexAdd(0), before, ids_val(token_ids(group)), c).term,
            t,
            group.len() as int,
        ),
    decreases n,
{
    let idx = ids_val(token_ids(group));
    let term = tri(Op::IndexAdd(0), before, idx, c).term;
    assert(term == Term::Tri(
        Op::IndexAdd(0),
        Box::new(before.term),
        Box::new(idx.term),
        Box::new(c.term),
    )) by {
        reveal(tri);
    }
    if n > 0 {
        lemma_added_rows(m, before, group, c, t, val, n - 1);
        assert(group[n - 1].0 < 0x1_0000_0000);
        assert(token_ids(group)[n - 1] as int == group[n - 1].0);
    }
}

/// From the choices that are one of the first `e` experts to those that are one of
/// the first `e + 1`.
pub proof fn lemma_choices_next<V>(
    m: Meaning<V>,
    base: V,
    row: Seq<usize>,
    t: usize,
    e: usize,
    val: spec_fn(usize) -> V,
    part: spec_fn(int) -> V,
)
    requires
        m.sums(),
        row.len() <= usize::MAX,
        forall|j: int| 0 <= j < row.len() && row[j] == e ==> #[trigger] part(j) == val(j as usize),
    ensures
        ({
            let own = row_hits(row, t, e, row.len() as int);
            folded(
                m,
                first_choices(m, base, row, e as int, part),
                own,
                t as int,
                val,
                own.len() as int,
            ) == first_choices(m, base, row, e + 1, part)
        }),
{
    let n = row.len() as int;
    let b = some_of(m, base, row, 0, e as int, part, n);
    lemma_some_hits(m, b, row, t, e, val, part, n);
    lemma_some_next(m, base, row, e as int, part, n);
}

/// `base` and the parts of a token's choices that are one of the first `e` experts.
pub closed spec fn first_choices<V>(
    m: Meaning<V>,
    base: V,
    row: Seq<usize>,
    e: int,
    part: spec_fn(int) -> V,
) -> V {
    some_of(m, base, row, 0, e, part, row.len() as int)
}

/// No expert, and all of them.
pub proof fn lemma_choices_ends<V>(
    m: Meaning<V>,
    base: V,
    row: Seq<usize>,
    e: int,
    part: spec_fn(int) -> V,
)
    requires
        forall|j: int| 0 <= j < row.len() ==> #[trigger] row[j] < e,
    ensures
        first_choices(m, base, row, 0, part) == base,
        first_choices(m, base, row, e, part) == summed(m, base, part, row.len() as int),
{
    lemma_some_none(m, base, row, part, row.len() as int);
    lemma_some_all(m, base, row, e, part, row.len() as int);
}

} // verus!
