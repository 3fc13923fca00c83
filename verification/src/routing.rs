//! Choice of experts on the host, and grouping of tokens by expert.
use vstd::prelude::*;

use crate::tape::{plan_view, RoutingPlan};

verus! {

/// Place of a single-precision number, given by its bits, in the total order
/// of such numbers.
pub open spec fn order_key(bits: u32) -> int {
    if bits < 0x8000_0000 {
        bits + 0x8000_0000
    } else {
        0xffff_ffff - bits
    }
}

pub fn total_order_key(bits: u32) -> (k: u32)
    ensures
        k == order_key(bits),
{
    if bits < 0x8000_0000 {
        bits + 0x8000_0000
    } else {
        0xffff_ffff - bits
    }
}

/// Numbers with different bits have different places.
pub proof fn law_order_is_total(a: u32, b: u32)
    ensures
        order_key(a) == order_key(b) <==> a == b,
{
}

/// Entry `i` comes before entry `j`: it is larger, or as large and further to
/// the left.
pub open spec fn ahead(row: Seq<u32>, i: int, j: int) -> bool {
    order_key(row[i]) > order_key(row[j]) || order_key(row[i]) == order_key(row[j]) && i < j
}

/// `r` holds the places of the `k` largest entries, the largest first; of equal
/// entries the leftmost.
pub open spec fn is_top_k(row: Seq<u32>, k: int, r: Seq<usize>) -> bool {
    &&& r.len() == (if k <= row.len() { k } else { row.len() as int })
    &&& forall|a: int| 0 <= a < r.len() ==> #[trigger] r[a] < row.len()
    &&& forall|a: int, b: int| 0 <= a < b < r.len() ==> ahead(row, #[trigger] r[a] as int, #[trigger] r[b] as int)
    &&& forall|a: int, j: int|
        0 <= a < r.len() && 0 <= j < row.len() && !#[trigger] r.contains(j as usize) ==> ahead(
            row,
            #[trigger] r[a] as int,
            j,
        )
}

fn comes_ahead(row: &Vec<u32>, i: usize, j: usize) -> (b: bool)
    requires
        i < row.len(),
        j < row.len(),
    ensures
        b == ahead(row@, i as int, j as int),
{
    let (a, b) = (total_order_key(row[i]), total_order_key(row[j]));
    a > b || a == b && i < j
}

/// The places of the `k` largest entries of a row of single-precision numbers,
/// the largest first.
pub fn top_k(row: &Vec<u32>, k: usize) -> (r: Vec<usize>)
    ensures
        is_top_k(row@, k as int, r@),
{
    let n: usize = row.len();
    let want: usize = if k <= n { k } else { n };
    let mut r: Vec<usize> = Vec::new();
    let mut taken: Vec<bool> = Vec::new();
    let mut i: usize = 0;
    while i < n
        invariant
            i <= n,
            taken.len() == i,
            forall|j: int| 0 <= j < i ==> !#[trigger] taken[j],
        decreases n - i,
    {
        taken.push(false);
        i += 1;
    }
    while r.len() < want
        invariant
            n == row.len(),
            taken.len() == n,
            want == (if k <= n { k } else { n }),
            r.len() <= want,
            forall|a: int| 0 <= a < r.len() ==> #[trigger] r[a] < n,
            forall|a: int| 0 <= a < r.len() ==> taken[#[trigger] r[a] as int],
            forall|j: int| 0 <= j < n && #[trigger] taken[j] ==> r@.contains(j as usize),
            forall|a: int, b: int|
                0 <= a < b < r.len() ==> ahead(row@, #[trigger] r[a] as int, #[trigger] r[b] as int),
            forall|a: int, j: int|
                0 <= a < r.len() && 0 <= j < n && !#[trigger] taken[j] ==> ahead(
                    row@,
                    #[trigger] r[a] as int,
                    j,
                ),
        decreases want - r.len(),
    {
        let mut best: Option<usize> = None;
        let mut i: usize = 0;
        while i < n
            invariant
                n == row.len(),
                taken.len() == n,
                i <= n,
                best matches Some(b) ==> b < i && !taken[b as int],
                best is None ==> forall|j: int| 0 <= j < i ==> #[trigger] taken[j],
                best matches Some(b) ==> forall|j: int|
                    0 <= j < i && !#[trigger] taken[j] && j != b ==> ahead(row@, b as int, j),
            decreases n - i,
        {
            if !taken[i] {
                match best {
                    None => {
                        best = Some(i);
                    },
                    Some(b) => {
                        if comes_ahead(row, i, b) {
                            best = Some(i);
                        }
                    },
                }
            }
            i += 1;
        }
        match best {
            None => {
                proof {
                    lemma_all_taken(r@, taken@);
                }
                return r;
            },
            Some(b) => {
                let ghost before = r@;
                r.push(b);
                taken.set(b, true);
                proof {
                    assert(r@[before.len() as int] == b);
                    assert forall|j: int| 0 <= j < n && #[trigger] taken[j] implies r@.contains(
                        j as usize,
                    ) by {
                        if j != b {
                            let a = choose|a: int| 0 <= a < before.len() && before[a] == j as usize;
                            assert(r@[a] == j as usize);
                        }
                    }
                }
            },
        }
    }
    proof {
        assert forall|a: int, j: int|
            0 <= a < r.len() && 0 <= j < n && !#[trigger] r@.contains(j as usize) implies ahead(
            row@,
            #[trigger] r@[a] as int,
            j,
        ) by {
            assert(!taken[j]);
        }
    }
    r
}

/// It takes as many choices as there are places to take them all.
proof fn lemma_all_taken(r: Seq<usize>, taken: Seq<bool>)
    requires
        taken.len() <= usize::MAX,
        forall|j: int| 0 <= j < taken.len() ==> #[trigger] taken[j],
        forall|j: int| 0 <= j < taken.len() && #[trigger] taken[j] ==> r.contains(j as usize),
    ensures
        r.len() >= taken.len(),
{
    let all = Set::new(|x: usize| x < taken.len());
    let places = r.to_set();
    vstd::seq_lib::seq_to_set_is_finite(r);
    r.lemma_cardinality_of_set();
    assert(all.subset_of(places)) by {
        assert forall|x: usize| all.contains(x) implies places.contains(x) by {
            assert(taken[x as int]);
        }
    }
    lemma_below(taken.len());
    vstd::set_lib::lemma_len_subset(all, places);
}

/// There are `n` numbers below `n`.
proof fn lemma_below(n: nat)
    requires
        n <= usize::MAX,
    ensures
        Set::new(|x: usize| x < n).finite(),
        Set::new(|x: usize| x < n).len() == n,
    decreases n,
{
    let s = Set::new(|x: usize| x < n);
    if n == 0 {
        assert(s =~= Set::empty());
    } else {
        let m = (n - 1) as nat;
        lemma_below(m);
        assert(s =~= Set::new(|x: usize| x < m).insert(m as usize));
    }
}

/// What `top_k` gives determines the chosen places: no two answers differ.
pub proof fn law_top_k_unique(row: Seq<u32>, k: int, r: Seq<usize>, s: Seq<usize>, n: int)
    requires
        is_top_k(row, k, r),
        is_top_k(row, k, s),
        0 <= n <= r.len(),
    ensures
        r.take(n) == s.take(n),
    decreases n,
{
    if n > 0 {
        law_top_k_unique(row, k, r, s, n - 1);
        let (a, b) = (r[n - 1], s[n - 1]);
        assert forall|i: int| 0 <= i < n - 1 implies r[i] == s[i] by {
            assert(r.take(n - 1)[i] == s.take(n - 1)[i]);
        }
        if a != b {
            lemma_next_ahead(row, k, r, s, n - 1);
            lemma_next_ahead(row, k, s, r, n - 1);
        }
        assert(r.take(n) =~= s.take(n));
    }
}

/// With equal entries so far, the next one of `r` is ahead of that of `s`.
proof fn lemma_next_ahead(row: Seq<u32>, k: int, r: Seq<usize>, s: Seq<usize>, n: int)
    requires
        is_top_k(row, k, r),
        is_top_k(row, k, s),
        0 <= n < r.len(),
        forall|i: int| 0 <= i < n ==> r[i] == s[i],
        r[n] != s[n],
    ensures
        ahead(row, r[n] as int, s[n] as int),
{
    let b = s[n];
    assert(b < row.len());
    if r.contains(b) {
        let j = choose|j: int| 0 <= j < r.len() && r[j] == b;
        if j < n {
            assert(s[j] == b);
            assert(ahead(row, s[j] as int, s[n] as int));
        }
        assert(j > n);
        assert(ahead(row, r[n] as int, r[j] as int));
    } else {
        assert(!r.contains(b as int as usize));
        assert(ahead(row, r[n] as int, b as int));
    }
}

/// Sorting a whole row and keeping the first `k` places chooses what `top_k`
/// chooses.
pub proof fn law_first_of_sorted(row: Seq<u32>, sorted: Seq<usize>, k: int)
    requires
        is_top_k(row, row.len() as int, sorted),
        0 <= k <= row.len() <= usize::MAX,
    ensures
        is_top_k(row, k, sorted.take(k)),
{
    let r = sorted.take(k);
    assert forall|a: int, j: int|
        0 <= a < r.len() && 0 <= j < row.len() && !#[trigger] r.contains(j as usize) implies ahead(
        row,
        #[trigger] r[a] as int,
        j,
    ) by {
        assert(r[a] == sorted[a]);
        if sorted.contains(j as usize) {
            let b = choose|b: int| 0 <= b < sorted.len() && sorted[b] == j as usize;
            if b < k {
                assert(r[b] == j as usize);
            }
            assert(ahead(row, sorted[a] as int, sorted[b] as int));
        }
    }
}

/// The plan that takes the `k` largest entries of each row.
pub open spec fn is_plan(rows: Seq<Seq<u32>>, k: int, plan: Seq<Seq<usize>>) -> bool {
    &&& plan.len() == rows.len()
    &&& forall|i: int| 0 <= i < rows.len() ==> is_top_k(rows[i], k, #[trigger] plan[i])
}

/// The plan that is made from rows of router probabilities.
pub open spec fn plan_of(rows: Seq<Seq<u32>>, k: int) -> Seq<Seq<usize>> {
    Seq::new(rows.len(), |i: int| choose|r: Seq<usize>| is_top_k(rows[i], k, r))
}

/// There is only one plan for given rows.
pub proof fn law_plan_unique(rows: Seq<Seq<u32>>, k: int, plan: Seq<Seq<usize>>)
    requires
        is_plan(rows, k, plan),
    ensures
        plan == plan_of(rows, k),
{
    assert forall|i: int| 0 <= i < rows.len() implies #[trigger] plan[i] == plan_of(rows, k)[i] by {
        let s = plan_of(rows, k)[i];
        assert(is_top_k(rows[i], k, plan[i]));
        assert(is_top_k(rows[i], k, s));
        let n = plan[i].len() as int;
        law_top_k_unique(rows[i], k, plan[i], s, n);
        assert(plan[i].take(n) =~= plan[i]);
        assert(s.take(n) =~= s);
    }
    assert(plan =~= plan_of(rows, k));
}

/// Rows of bits as sequences.
pub open spec fn rows_view(rows: Vec<Vec<u32>>) -> Seq<Seq<u32>> {
    Seq::new(rows.len() as nat, |i: int| rows[i]@)
}

/// Takes the `k` largest entries of each row.
pub fn route(rows: &Vec<Vec<u32>>, k: usize) -> (plan: RoutingPlan)
    ensures
        is_plan(rows_view(*rows), k as int, plan_view(plan)),
{
    let mut plan: RoutingPlan = Vec::new();
    let mut i: usize = 0;
    while i < rows.len()
        invariant
            i <= rows.len(),
            plan.len() == i,
            forall|j: int| 0 <= j < i ==> is_top_k(rows[j]@, k as int, #[trigger] plan[j]@),
        decreases rows.len() - i,
    {
        plan.push(top_k(&rows[i], k));
        i += 1;
    }
    plan
}

/// Every chosen expert is one of the first `n`.
pub open spec fn plan_within(plan: Seq<Seq<usize>>, n: int) -> bool {
    forall|i: int, j: int| 0 <= i < plan.len() && 0 <= j < plan[i].len() ==> #[trigger] plan[i][j] < n
}

/// A plan made from rows of `n` entries chooses among the first `n` experts.
pub proof fn law_plan_within(rows: Seq<Seq<u32>>, k: int, plan: Seq<Seq<usize>>, n: int)
    requires
        is_plan(rows, k, plan),
        forall|i: int| 0 <= i < rows.len() ==> #[trigger] rows[i].len() == n,
    ensures
        plan_within(plan, n),
{
    assert forall|i: int, j: int| 0 <= i < plan.len() && 0 <= j < plan[i].len() implies
        #[trigger] plan[i][j] < n by {
        assert(is_top_k(rows[i], k, plan[i]));
        assert(rows[i].len() == n);
    }
}

/// The first `m` choices of token `tok` that are expert `e`, as `(token, place
/// among its choices)`.
pub open spec fn row_hits(row: Seq<usize>, tok: usize, e: usize, m: int) -> Seq<(usize, usize)>
    decreases m,
{
    if m <= 0 {
        Seq::empty()
    } else {
        let before = row_hits(row, tok, e, m - 1);
        if row[m - 1] == e {
            before.push((tok, (m - 1) as usize))
        } else {
            before
        }
    }
}

/// The choices of the first `n` tokens that are expert `e`, in token order.
pub open spec fn hits(plan: Seq<Seq<usize>>, e: usize, n: int) -> Seq<(usize, usize)>
    decreases n,
{
    if n <= 0 {
        Seq::empty()
    } else {
        hits(plan, e, n - 1) + row_hits(
            plan[n - 1],
            (n - 1) as usize,
            e,
            plan[n - 1].len() as int,
        )
    }
}

/// Groups the choices of a plan by expert.
pub fn group_by_expert(plan: &RoutingPlan, experts: usize) -> (r: Vec<Vec<(usize, usize)>>)
    requires
        plan_within(plan_view(*plan), experts as int),
    ensures
        r.len() == experts,
        forall|e: int|
            0 <= e < experts ==> #[trigger] r[e]@ == hits(
                plan_view(*plan),
                e as usize,
                plan.len() as int,
            ),
{
    let ghost p = plan_view(*plan);
    let mut r: Vec<Vec<(usize, usize)>> = Vec::new();
    let mut e: usize = 0;
    while e < experts
        invariant
            e <= experts,
            r.len() == e,
            forall|i: int| 0 <= i < e ==> #[trigger] r[i]@ == Seq::<(usize, usize)>::empty(),
        decreases experts - e,
    {
        r.push(Vec::new());
        e += 1;
    }
    let mut tok: usize = 0;
    while tok < plan.len()
        invariant
            tok <= plan.len(),
            p == plan_view(*plan),
            plan_within(p, experts as int),
            r.len() == experts,
            forall|e: int| 0 <= e < experts ==> #[trigger] r[e]@ == hits(p, e as usize, tok as int),
        decreases plan.len() - tok,
    {
        let row = &plan[tok];
        assert(p[tok as int] == row@);
        let mut j: usize = 0;
        while j < row.len()
            invariant
                j <= row.len(),
                tok < plan.len(),
                p == plan_view(*plan),
                p[tok as int] == row@,
                plan_within(p, experts as int),
                r.len() == experts,
                forall|e: int|
                    0 <= e < experts ==> #[trigger] r[e]@ == hits(p, e as usize, tok as int)
                        + row_hits(row@, tok, e as usize, j as int),
            decreases row.len() - j,
        {
            let e: usize = row[j];
            assert(p[tok as int][j as int] < experts);
            let ghost before = r@;
            r[e].push((tok, j));
            proof {
                assert forall|x: int| 0 <= x < experts implies #[trigger] r[x]@ == hits(
                    p,
                    x as usize,
                    tok as int,
                ) + row_hits(row@, tok, x as usize, j + 1) by {
                    if x == e {
                        assert(r[x]@ =~= before[x]@.push((tok, j)));
                    } else {
                        assert(r[x] == before[x]);
                    }
                    assert(r[x]@ =~= hits(p, x as usize, tok as int) + row_hits(
                        row@,
                        tok,
                        x as usize,
                        j + 1,
                    ));
                }
            }
            j += 1;
        }
        tok += 1;
    }
    r
}

/// Grouping loses and doubles nothing: choice `j` of token `tok` stands in the
/// group of the expert it names, and in no other.
pub proof fn law_groups_partition(plan: Seq<Seq<usize>>, e: usize, n: int, tok: usize, j: usize)
    requires
        0 <= n <= plan.len(),
        plan.len() <= usize::MAX,
        forall|i: int| 0 <= i < plan.len() ==> #[trigger] plan[i].len() <= usize::MAX,
        tok < n,
        j < plan[tok as int].len(),
    ensures
        hits(plan, e, n).contains((tok, j)) <==> plan[tok as int][j as int] == e,
    decreases n,
{
    let last = (n - 1) as usize;
    let row = plan[n - 1];
    let before = hits(plan, e, n - 1);
    let here = row_hits(row, last, e, row.len() as int);
    lemma_row_hits(row, last, e, row.len() as int, (tok, j));
    if tok < n - 1 {
        law_groups_partition(plan, e, n - 1, tok, j);
    } else {
        lemma_hits_tokens(plan, e, n - 1, (tok, j));
    }
    assert((before + here).contains((tok, j)) <==> before.contains((tok, j)) || here.contains(
        (tok, j),
    )) by {
        if before.contains((tok, j)) {
            let i = choose|i: int| 0 <= i < before.len() && before[i] == (tok, j);
            assert((before + here)[i] == (tok, j));
        }
        if here.contains((tok, j)) {
            let i = choose|i: int| 0 <= i < here.len() && here[i] == (tok, j);
            assert((before + here)[before.len() + i] == (tok, j));
        }
    }
}

pub(crate) proof fn lemma_row_hits(row: Seq<usize>, tok: usize, e: usize, m: int, x: (usize, usize))
    requires
        0 <= m <= row.len(),
        row.len() <= usize::MAX,
    ensures
        row_hits(row, tok, e, m).contains(x) <==> x.0 == tok && x.1 < m && row[x.1 as int] == e,
    decreases m,
{
    if m > 0 {
        lemma_row_hits(row, tok, e, m - 1, x);
        let before = row_hits(row, tok, e, m - 1);
        let y = (tok, (m - 1) as usize);
        if row[m - 1] == e {
            assert(before.push(y).contains(x) <==> before.contains(x) || x == y) by {
                if before.contains(x) {
                    let i = choose|i: int| 0 <= i < before.len() && before[i] == x;
                    assert(before.push(y)[i] == x);
                }
                assert(before.push(y)[before.len() as int] == y);
            }
        }
    }
}

pub(crate) proof fn lemma_hits_tokens(plan: Seq<Seq<usize>>, e: usize, n: int, x: (usize, usize))
    requires
        0 <= n <= plan.len(),
        plan.len() <= usize::MAX,
        forall|i: int| 0 <= i < plan.len() ==> #[trigger] plan[i].len() <= usize::MAX,
    ensures
        hits(plan, e, n).contains(x) ==> x.0 < n,
    decreases n,
{
    if n > 0 {
        lemma_hits_tokens(plan, e, n - 1, x);
        lemma_row_hits(plan[n - 1], (n - 1) as usize, e, plan[n - 1].len() as int, x);
    }
}

/// The tokens of a group, as numbers for the device.
pub open spec fn token_ids(group: Seq<(usize, usize)>) -> Seq<u32> {
    Seq::new(group.len(), |i: int| group[i].0 as u32)
}

pub fn tokens_of(group: &Vec<(usize, usize)>) -> (ids: Vec<u32>)
    ensures
        ids@ == token_ids(group@),
{
    let mut ids: Vec<u32> = Vec::new();
    let mut i: usize = 0;
    while i < group.len()
        invariant
            i <= group.len(),
            ids.len() == i,
            forall|j: int| 0 <= j < i ==> #[trigger] ids[j] == group[j].0 as u32,
        decreases group.len() - i,
    {
        ids.push(group[i].0 as u32);
        i += 1;
    }
    assert(ids@ =~= token_ids(group@));
    ids
}

pub fn copy_pairs(pairs: &Vec<(usize, usize)>) -> (r: Vec<(usize, usize)>)
    ensures
        r@ == pairs@,
{
    let mut r: Vec<(usize, usize)> = Vec::new();
    let mut i: usize = 0;
    while i < pairs.len()
        invariant
            i <= pairs.len(),
            r@ == pairs@.take(i as int),
        decreases pairs.len() - i,
    {
        r.push(pairs[i]);
        assert(r@ =~= pairs@.take(i + 1));
        i += 1;
    }
    assert(r@ =~= pairs@);
    r
}

pub fn copy_plan(plan: &RoutingPlan) -> (r: RoutingPlan)
    ensures
        plan_view(r) == plan_view(*plan),
{
    let mut r: RoutingPlan = Vec::new();
    let mut i: usize = 0;
    while i < plan.len()
        invariant
            i <= plan.len(),
            r.len() == i,
            forall|j: int| 0 <= j < i ==> #[trigger] r[j]@ == plan[j]@,
        decreases plan.len() - i,
    {
        let mut row: Vec<usize> = Vec::new();
        let mut j: usize = 0;
        while j < plan[i].len()
            invariant
                i < plan.len(),
                j <= plan[i as int].len(),
                row@ == plan[i as int]@.take(j as int),
            decreases plan[i as int].len() - j,
        {
            row.push(plan[i][j]);
            assert(row@ =~= plan[i as int]@.take(j + 1));
            j += 1;
        }
        assert(row@ =~= plan[i as int]@);
        r.push(row);
        i += 1;
    }
    assert(plan_view(r) =~= plan_view(*plan));
    r
}

} // verus!
