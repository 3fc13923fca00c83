//! What a value holds at each position of a sequence.
//!
//! Most operations treat positions one by one. The others move positions
//! (slices, joins, writes of rows), gather over the positions of keys and values
//! (attention), or carry a state from position to position (the scan). A
//! [`Meaning`] says what the first kind gives and how the last two are made up;
//! what a value holds at a position then follows from how it was computed.
use vstd::prelude::*;

use crate::dtype::DType;
use crate::masks::blocked;
use crate::rows::cell_blocked;
use crate::shape::d1;
use crate::static_decode::counted;
use crate::tape::{bin, leaf, scan_output, scan_state, tri, un, GateRule, Op, Term, Val, Weight};

verus! {

/// What operations give on what their operands hold at one position.
#[verifier::reject_recursive_types(V)]
pub struct Meaning<V> {
    /// A weight or a constant.
    pub leaf: spec_fn(Op) -> V,
    /// A row of a table of weights.
    pub row: spec_fn(Weight, int) -> V,
    pub un: spec_fn(Op, V) -> V,
    pub bin: spec_fn(Op, V, V) -> V,
    pub tri: spec_fn(Op, V, V, V) -> V,
    /// Score of a key for a query.
    pub score: spec_fn(V, V) -> V,
    /// A cell of a mask, blocked or open.
    pub cell: spec_fn(bool) -> V,
    /// Nothing gathered.
    pub nothing: V,
    /// One more value gathered, with its score.
    pub gather: spec_fn(V, V, V) -> V,
    /// What was gathered, as a mean.
    pub mean: spec_fn(V) -> V,
    /// The state after a key, a value, a write strength and a decay.
    pub step: spec_fn(V, V, V, V, V) -> V,
    /// What a query reads from the state.
    pub emit: spec_fn(V, V) -> V,
    /// The weights of the experts that a row of probabilities was given.
    pub gates: spec_fn(GateRule, Seq<usize>, V) -> V,
    /// One number of a row.
    pub pick: spec_fn(usize, V) -> V,
    /// Where the ring of a rotating cache stands after appends of these lengths.
    pub turn: spec_fn(Seq<int>) -> int,
    /// A value from elsewhere.
    pub given: spec_fn(Term, int) -> V,
    /// Positions of a value from elsewhere.
    pub extent: spec_fn(Term) -> int,
}

/// The positions of the value lie on its last axis.
pub open spec fn sideways(t: Term) -> bool
    decreases t,
{
    match t {
        Term::Leaf(op) => op is Zeros,
        Term::Un(op, a) => if op is Reshape {
            false
        } else if op == Op::Transpose(0, 1) {
            !sideways(*a)
        } else {
            sideways(*a)
        },
        Term::Bin(_, a, b) => sideways(*a) || sideways(*b),
        _ => false,
    }
}

/// A join along positions.
pub open spec fn joins(op: Op, b: Term) -> bool {
    op == Op::Cat(2) || op == Op::Cat(1) && sideways(b)
}

/// A slice along positions.
pub open spec fn slices(op: Op, a: Term) -> bool {
    op matches Op::Narrow { dim, .. } && dim == 1 && sideways(a)
}

/// A slice of rows of a table.
pub open spec fn looks_up(op: Op, a: Term) -> bool {
    &&& op matches Op::Narrow { dim, .. } && dim == 0
    &&& a matches Term::Leaf(l) && l is Param
}

/// The positions that `t` names one after the other from a counted one on.
pub open spec fn counted_from(t: Term) -> Option<int> {
    match t {
        Term::Un(Op::Iota, p) => counted(*p),
        _ => counted(t),
    }
}

/// Cell `(i, j)` of a block of mask rows that was refreshed at a counted position:
/// key `j` is kept from row `i`.
pub open spec fn block_cell(t: Term, i: int, j: int) -> Option<bool> {
    match t {
        Term::Un(Op::MaskBlock { sliding }, p) => match counted(*p) {
            Some(at) => Some(blocked(at + i, j, sliding)),
            None => None,
        },
        _ => None,
    }
}

/// The operation keeps every position where it is, and changes nothing there.
pub open spec fn lays_out(op: Op) -> bool {
    op is Reshape || op is Transpose || op == Op::Unsqueeze(0)
}

/// The operation without the number of positions.
pub open spec fn timeless(op: Op) -> Op {
    match op {
        Op::Expand(s) => Op::Expand(s.set(3, 0)),
        _ => op,
    }
}

/// The scores behind the weights `p` of a mean.
pub open spec fn softmax_of(p: Term) -> bool {
    match p {
        Term::Un(Op::SoftmaxLast, s) => true,
        Term::Un(Op::ToDType(_), q) => match *q {
            Term::Un(Op::SoftmaxLast, s) => true,
            _ => false,
        },
        _ => false,
    }
}

impl<V> Meaning<V> {
    /// How many positions a value has.
    pub open spec fn len(self, t: Term) -> int
        decreases t, 0int,
    {
        match t {
            Term::Leaf(Op::Zeros { shape, dtype }) => shape.d1 as int,
            Term::Un(Op::Narrow { dim, start, len }, a) => if dim < 2 {
                len as int
            } else {
                self.len(*a)
            },
            Term::Un(Op::CacheView { len }, _) => len as int,
            Term::Un(_, a) => self.len(*a),
            Term::Bin(op, a, b) => if joins(op, *b) {
                self.len(*a) + self.len(*b)
            } else if op is CacheAppend {
                self.kept(*a) + self.len(*b)
            } else {
                self.len(*a)
            },
            Term::Tri(_, a, _, _) => self.len(*a),
            Term::ScanOutput(_, _, _, beta, _, _) => self.len(*beta),
            Term::Ids(ids) => ids.len() as int,
            _ => (self.extent)(t),
        }
    }

    /// How many positions a growing cache has taken in. One that was just made, or
    /// emptied, has none.
    pub open spec fn kept(self, t: Term) -> int
        decreases t, 1int,
    {
        match t {
            Term::Leaf(Op::Zeros { shape, dtype }) => 0,
            _ => self.len(t),
        }
    }

    /// The lengths of the appends that a growing cache has taken in.
    pub open spec fn history(self, t: Term) -> Seq<int>
        decreases t,
    {
        match t {
            Term::Leaf(Op::Zeros { shape, dtype }) => Seq::empty(),
            Term::Bin(Op::CacheAppend { max_seq, rotating }, c, x) => self.history(*c).push(
                self.len(*x),
            ),
            _ => seq![self.len(t)],
        }
    }

    /// Which of the `len` latest positions a cache hands out as its `i`-th: they
    /// are in order, except that a rotating cache hands out its ring, which may
    /// begin with any of them.
    pub open spec fn handed(self, t: Term, len: int, i: int) -> int {
        match t {
            Term::Bin(Op::CacheAppend { max_seq, rotating }, _, _) => if rotating && len > 0 {
                (i + (self.turn)(self.history(t))) % len
            } else {
                i
            },
            _ => i,
        }
    }

    /// What `t` holds at position `i`.
    pub open spec fn at(self, t: Term, i: int) -> V
        decreases t, 2int, 0int,
    {
        match t {
            Term::Leaf(op) => match op {
                Op::Zeros { shape, dtype } => (self.leaf)(
                    Op::Zeros { shape: d1(shape.d0), dtype: DType::F32 },
                ),
                _ => (self.leaf)(op),
            },
            Term::Un(op, a) => if lays_out(op) {
                self.at(*a, i)
            } else if slices(op, *a) {
                self.at(*a, op->Narrow_start + i)
            } else if looks_up(op, *a) {
                (self.row)((*a)->Leaf_0->Param_0, op->Narrow_start + i)
            } else if op is CacheView {
                let len = op->CacheView_len as int;
                self.at(*a, self.len(*a) - len + self.handed(*a, len, i))
            } else {
                (self.un)(timeless(op), self.at(*a, i))
            },
            Term::Bin(op, a, b) => if joins(op, *b) {
                if i < self.len(*a) {
                    self.at(*a, i)
                } else {
                    self.at(*b, i - self.len(*a))
                }
            } else if op is CacheAppend {
                if i < self.kept(*a) {
                    self.at(*a, i)
                } else {
                    self.at(*b, i - self.kept(*a))
                }
            } else if op is KvRows {
                if op->KvRows_pos <= i < op->KvRows_pos + op->KvRows_len {
                    self.at(*b, i - op->KvRows_pos)
                } else {
                    self.at(*a, i)
                }
            } else if op == Op::MatMul && softmax_of(*a) {
                (self.mean)(self.gathered(t, i, self.len(*b)))
            } else {
                match (*b, *a, counted_from(*b)) {
                    (Term::Ids(ids), _, _) if op == Op::IndexSelect(0) => self.at(
                        *a,
                        ids[i] as int,
                    ),
                    (_, Term::Leaf(Op::Param(w)), Some(p)) if op == Op::IndexSelect(0) => (self.row)(
                        w,
                        p + i,
                    ),
                    _ => (self.bin)(op, self.at(*a, i), self.at(*b, i)),
                }
            },
            Term::Tri(Op::IndexAdd(0), a, b, c) => match *b {
                Term::Ids(ids) => self.added(t, i, ids.len() as int),
                _ => (self.tri)(Op::IndexAdd(0), self.at(*a, i), self.at(*b, i), self.at(*c, i)),
            },
            Term::Tri(op, a, b, c) => match counted(*c) {
                Some(p) if op == Op::KvRow => if i == p {
                    self.at(*b, 0)
                } else {
                    self.at(*a, i)
                },
                Some(p) if op == Op::KvRowsAt => if p <= i < p + self.len(*b) {
                    self.at(*b, i - p)
                } else {
                    self.at(*a, i)
                },
                _ => (self.tri)(op, self.at(*a, i), self.at(*b, i), self.at(*c, i)),
            },
            Term::ScanOutput(q, k, v, beta, decay, s) => (self.emit)(
                self.after(t, i + 1),
                self.at(*q, i),
            ),
            Term::ScanState(q, k, v, beta, decay, s) => self.after(t, self.len(*beta)),
            Term::Gates(rule, p, plan) => (self.gates)(rule, plan[i], self.at(*p, i)),
            Term::Pick(a, at) => (self.pick)(at[i].1, self.at(*a, at[i].0 as int)),
            Term::Ids(ids) => (self.leaf)(Op::U32(ids[i])),
            _ => (self.given)(t, i),
        }
    }

    /// Position `i` after the first `n` rows were added to those that they are
    /// for.
    pub open spec fn added(self, t: Term, i: int, n: int) -> V
        decreases t, 1int, n,
    {
        match t {
            Term::Tri(Op::IndexAdd(0), a, b, c) => match *b {
                Term::Ids(ids) => if n <= 0 {
                    self.at(*a, i)
                } else if ids[n - 1] as int == i {
                    (self.bin)(Op::Add, self.added(t, i, n - 1), self.at(*c, n - 1))
                } else {
                    self.added(t, i, n - 1)
                },
                _ => (self.given)(t, i),
            },
            _ => (self.given)(t, i),
        }
    }

    /// The state of a scan after `n` positions.
    pub open spec fn after(self, t: Term, n: int) -> V
        decreases t, 1int, n,
    {
        match t {
            Term::ScanOutput(q, k, v, beta, decay, s) => if n <= 0 {
                self.at(*s, 0)
            } else {
                (self.step)(
                    self.after(t, n - 1),
                    self.at(*k, n - 1),
                    self.at(*v, n - 1),
                    self.at(*beta, n - 1),
                    self.at(*decay, n - 1),
                )
            },
            Term::ScanState(q, k, v, beta, decay, s) => if n <= 0 {
                self.at(*s, 0)
            } else {
                (self.step)(
                    self.after(t, n - 1),
                    self.at(*k, n - 1),
                    self.at(*v, n - 1),
                    self.at(*beta, n - 1),
                    self.at(*decay, n - 1),
                )
            },
            _ => (self.given)(t, n),
        }
    }

    /// What query `i` of an attention gathers from the first `n` keys.
    pub open spec fn gathered(self, t: Term, i: int, n: int) -> V
        decreases t, 1int, n,
    {
        if n <= 0 {
            self.nothing
        } else {
            match t {
                Term::Bin(_, p, v) => match *p {
                    Term::Un(Op::SoftmaxLast, s) => (self.gather)(
                        self.gathered(t, i, n - 1),
                        self.cell_at(*s, i, n - 1),
                        self.at(*v, n - 1),
                    ),
                    Term::Un(_, q) => match *q {
                        Term::Un(_, s) => (self.gather)(
                            self.gathered(t, i, n - 1),
                            self.cell_at(*s, i, n - 1),
                            self.at(*v, n - 1),
                        ),
                        _ => self.nothing,
                    },
                    _ => self.nothing,
                },
                _ => self.nothing,
            }
        }
    }

    /// The score of key `j` for query `i`. Scores are as wide as they need to
    /// be: rounding is left aside.
    pub open spec fn cell_at(self, t: Term, i: int, j: int) -> V
        decreases t, 2int, 0int,
    {
        match t {
            Term::Un(op, a) => if op is Reshape || op is ToDType {
                self.cell_at(*a, i, j)
            } else if op is MaskRow {
                match cell_blocked(t, j) {
                    Some(b) => (self.cell)(b),
                    None => (self.given)(t, j),
                }
            } else if op is MaskBlock {
                match block_cell(t, i, j) {
                    Some(b) => (self.cell)(b),
                    None => (self.given)(t, j),
                }
            } else if op is Narrow && op->Narrow_dim == 0 {
                self.cell_at(*a, op->Narrow_start + i, j)
            } else if op is Narrow && op->Narrow_dim == 1 {
                self.cell_at(*a, i, op->Narrow_start + j)
            } else {
                (self.un)(op, self.cell_at(*a, i, j))
            },
            Term::Bin(op, a, b) => if op == Op::MatMul {
                (self.score)(self.at(*a, i), self.at(*b, j))
            } else {
                (self.bin)(op, self.cell_at(*a, i, j), self.cell_at(*b, i, j))
            },
            Term::Mask(rows, cols, cells) => (self.cell)(cells[i * cols + j]),
            _ => (self.given)(t, j),
        }
    }

    /// An open cell of a mask changes no score, and a key that a mask blocks is
    /// not gathered: the softmax of minus infinity is zero.
    pub open spec fn masks(self) -> bool {
        &&& forall|c: V| #[trigger]
            (self.bin)(Op::BroadcastAdd, c, (self.cell)(false)) == c
        &&& forall|g: V, c: V, v: V| #[trigger]
            (self.gather)(g, (self.bin)(Op::BroadcastAdd, c, (self.cell)(true)), v) == g
    }

    /// Sums do not depend on order or grouping.
    pub open spec fn sums(self) -> bool {
        &&& forall|a: V, b: V| #[trigger] (self.bin)(Op::Add, a, b) == (self.bin)(Op::Add, b, a)
        &&& forall|a: V, b: V, c: V| #[trigger]
            (self.bin)(Op::Add, (self.bin)(Op::Add, a, b), c) == (self.bin)(
                Op::Add,
                a,
                (self.bin)(Op::Add, b, c),
            )
    }

    /// `a` at `i` holds what `b` holds at `j`.
    pub open spec fn same(self, a: Val, i: int, b: Val, j: int) -> bool {
        self.at(a.term, i) == self.at(b.term, j)
    }
}

/// The same operation on the same contents gives the same.
pub proof fn lemma_same_un<V>(m: Meaning<V>, op: Op, a: Val, i: int, b: Val, j: int)
    requires
        m.same(a, i, b, j),
        !(op is Narrow) && !(op is CacheView),
    ensures
        m.same(un(op, a), i, un(op, b), j),
{
    reveal(un);
}

/// How many positions, and where they lie, after an operation on one value.
pub proof fn lemma_un_extent<V>(m: Meaning<V>, op: Op, a: Val)
    ensures
        !(op is Narrow) && !(op is CacheView) ==> m.len(un(op, a).term) == m.len(a.term),
        op matches Op::Narrow { dim, len, .. } ==> m.len(un(op, a).term) == (if dim < 2 {
            len as int
        } else {
            m.len(a.term)
        }),
        op is Reshape ==> !sideways(un(op, a).term),
        op == Op::Transpose(0, 1) ==> sideways(un(op, a).term) == !sideways(a.term),
        !(op is Reshape) && op != Op::Transpose(0, 1) ==> sideways(un(op, a).term) == sideways(
            a.term,
        ),
{
    reveal(un);
}

/// How many positions, and where they lie, after an operation on two values.
pub proof fn lemma_bin_extent<V>(m: Meaning<V>, op: Op, a: Val, b: Val)
    ensures
        m.len(bin(op, a, b).term) == (if joins(op, b.term) {
            m.len(a.term) + m.len(b.term)
        } else if op is CacheAppend {
            m.kept(a.term) + m.len(b.term)
        } else {
            m.len(a.term)
        }),
        sideways(bin(op, a, b).term) == (sideways(a.term) || sideways(b.term)),
{
    reveal(bin);
}

/// A slice along positions.
pub proof fn lemma_sliced<V>(m: Meaning<V>, start: usize, len: usize, a: Val, i: int)
    requires
        sideways(a.term),
    ensures
        m.same(un(Op::Narrow { dim: 1, start, len }, a), i, a, start + i),
{
    reveal(un);
}

/// Contents of a position where two values were joined along positions.
pub proof fn lemma_joined<V>(m: Meaning<V>, op: Op, a: Val, b: Val, i: int)
    requires
        joins(op, b.term),
    ensures
        m.at(bin(op, a, b).term, i) == (if i < m.len(a.term) {
            m.at(a.term, i)
        } else {
            m.at(b.term, i - m.len(a.term))
        }),
{
    reveal(bin);
}

/// Extents and the order of axes do not matter.
pub proof fn lemma_laid_out<V>(m: Meaning<V>, op: Op, a: Val, i: int)
    requires
        lays_out(op),
    ensures
        m.same(un(op, a), i, a, i),
        m.len(un(op, a).term) == m.len(a.term),
{
    reveal(un);
}

/// The same slice of the contents of a position.
pub proof fn lemma_same_part<V>(m: Meaning<V>, op: Op, a: Val, i: int, b: Val, j: int)
    requires
        m.same(a, i, b, j),
        op is Narrow,
        !slices(op, a.term) && !slices(op, b.term),
        !looks_up(op, a.term) && !looks_up(op, b.term),
    ensures
        m.same(un(op, a), i, un(op, b), j),
{
    reveal(un);
}

/// The operation joins contents of one position.
pub open spec fn pointwise(op: Op, b: Term) -> bool {
    &&& !joins(op, b) && !(op is KvRows) && !(op is CacheAppend)
    &&& op != Op::MatMul && !(op is IndexSelect)
}

pub proof fn lemma_same_bin<V>(
    m: Meaning<V>,
    op: Op,
    a: (Val, Val),
    i: int,
    b: (Val, Val),
    j: int,
)
    requires
        m.same(a.0, i, b.0, j),
        m.same(a.1, i, b.1, j),
        pointwise(op, a.1.term) && pointwise(op, b.1.term),
    ensures
        m.same(bin(op, a.0, a.1), i, bin(op, b.0, b.1), j),
{
    reveal(bin);
}

pub proof fn lemma_same_tri<V>(
    m: Meaning<V>,
    op: Op,
    a: (Val, Val, Val),
    i: int,
    b: (Val, Val, Val),
    j: int,
)
    requires
        m.same(a.0, i, b.0, j),
        m.same(a.1, i, b.1, j),
        m.same(a.2, i, b.2, j),
        op != Op::KvRow && op != Op::KvRowsAt && !(op is IndexAdd),
    ensures
        m.same(tri(op, a.0, a.1, a.2), i, tri(op, b.0, b.1, b.2), j),
        m.len(tri(op, a.0, a.1, a.2).term) == m.len(a.0.term),
{
    reveal(tri);
}

/// Rows of a table.
pub proof fn lemma_looked_up<V>(m: Meaning<V>, w: Weight, start: usize, len: usize, i: int)
    ensures
        m.at(un(Op::Narrow { dim: 0, start, len }, leaf(Op::Param(w))).term, i) == (m.row)(
            w,
            start + i,
        ),
{
    reveal(un);
}

/// Cells after an operation on scores.
pub proof fn lemma_cell_un<V>(m: Meaning<V>, op: Op, a: Val, i: int, j: int)
    requires
        !(op is MaskRow) && !(op is MaskBlock) && !(op is Narrow),
        op != Op::Contiguous,
    ensures
        m.cell_at(un(op, a).term, i, j) == (if op is Reshape || op is ToDType {
            m.cell_at(a.term, i, j)
        } else {
            (m.un)(op, m.cell_at(a.term, i, j))
        }),
{
    reveal(un);
}

/// Cells of a product of queries with keys, and of sums of scores and masks.
pub proof fn lemma_cell_bin<V>(m: Meaning<V>, op: Op, a: Val, b: Val, i: int, j: int)
    ensures
        op != Op::MatMul ==> m.cell_at(bin(op, a, b).term, i, j) == (m.bin)(
            op,
            m.cell_at(a.term, i, j),
            m.cell_at(b.term, i, j),
        ),
{
    reveal(bin);
}

/// A cell of a mask.
pub proof fn lemma_cell_mask<V>(
    m: Meaning<V>,
    rows: usize,
    cols: usize,
    cells: Seq<bool>,
    i: int,
    j: int,
)
    ensures
        m.cell_at(Term::Mask(rows, cols, cells), i, j) == (m.cell)(cells[i * cols + j]),
{
}

/// What a masked score amounts to.
pub proof fn lemma_masked<V>(m: Meaning<V>, g: V, c: V, blocked: bool, v: V)
    requires
        m.masks(),
    ensures
        (m.gather)(g, (m.bin)(Op::BroadcastAdd, c, (m.cell)(blocked)), v) == (if blocked {
            g
        } else {
            (m.gather)(g, c, v)
        }),
{
}

/// A cell of a product of queries with keys.
pub proof fn lemma_cell_matmul<V>(m: Meaning<V>, a: Val, b: Val, i: int, j: int)
    ensures
        m.cell_at(bin(Op::MatMul, a, b).term, i, j) == (m.score)(m.at(a.term, i), m.at(b.term, j)),
{
    reveal(bin);
}

/// A cell of the upper left corner of a mask.
pub proof fn lemma_cell_corner<V>(m: Meaning<V>, mask: Val, len: usize, i: int, j: int)
    ensures
        m.cell_at(
            un(
                Op::Narrow { dim: 1, start: 0, len },
                un(Op::Narrow { dim: 0, start: 0, len }, mask),
            ).term,
            i,
            j,
        ) == m.cell_at(mask.term, i, j),
{
    reveal(un);
    reveal_with_fuel(Meaning::cell_at, 3);
}

/// The score of a key.
pub proof fn lemma_cell_product<V>(m: Meaning<V>, q: Val, turn: Op, k: Val, i: int, j: int)
    requires
        turn is Transpose,
    ensures
        m.cell_at(bin(Op::MatMul, q, un(turn, k)).term, i, j) == (m.score)(
            m.at(q.term, i),
            m.at(k.term, j),
        ),
{
    lemma_laid_out(m, turn, k, j);
    reveal(un);
    reveal(bin);
}

/// No keys gathered.
pub proof fn lemma_gathered_none<V>(m: Meaning<V>, t: Term, i: int)
    ensures
        m.gathered(t, i, 0) == m.nothing,
{
}

/// One more key gathered.
pub proof fn lemma_gathered_next<V>(
    m: Meaning<V>,
    to: Option<DType>,
    scores: Val,
    v: Val,
    i: int,
    n: int,
)
    requires
        n > 0,
    ensures
        ({
            let probs = un(Op::SoftmaxLast, scores);
            let probs = match to {
                Some(d) => un(Op::ToDType(d), probs),
                None => probs,
            };
            let t = bin(Op::MatMul, probs, v).term;
            &&& m.gathered(t, i, n) == (m.gather)(
                m.gathered(t, i, n - 1),
                m.cell_at(scores.term, i, n - 1),
                m.at(v.term, n - 1),
            )
            &&& m.at(t, i) == (m.mean)(m.gathered(t, i, m.len(v.term)))
        }),
{
    reveal(un);
    reveal(bin);
}

/// The score of a key that a mask blocks.
pub open spec fn blocked_score<V>(m: Meaning<V>, c: V) -> bool {
    exists|x: V| c == #[trigger] (m.bin)(Op::BroadcastAdd, x, (m.cell)(true))
}

/// Key `j` counts alike in two attentions: with the same score and value, or not
/// at all.
pub open spec fn counts_alike<V>(
    m: Meaning<V>,
    a: (Val, Val),
    b: (Val, Val),
    i: int,
    j: int,
) -> bool {
    ||| m.cell_at(a.0.term, i, j) == m.cell_at(b.0.term, i, j) && m.same(a.1, j, b.1, j)
    ||| blocked_score(m, m.cell_at(a.0.term, i, j)) && blocked_score(
        m,
        m.cell_at(b.0.term, i, j),
    )
}

/// The mean of values by the softmax of scores.
pub open spec fn attended(to: Option<DType>, scores: Val, v: Val) -> Val {
    let probs = un(Op::SoftmaxLast, scores);
    bin(
        Op::MatMul,
        match to {
            Some(d) => un(Op::ToDType(d), probs),
            None => probs,
        },
        v,
    )
}

/// Keys that a mask blocks do not matter.
proof fn lemma_gathered_alike<V>(
    m: Meaning<V>,
    to: Option<DType>,
    a: (Val, Val),
    b: (Val, Val),
    i: int,
    n: int,
)
    requires
        m.masks(),
        forall|j: int| 0 <= j < n ==> #[trigger] counts_alike(m, a, b, i, j),
    ensures
        m.gathered(attended(to, a.0, a.1).term, i, n) == m.gathered(
            attended(to, b.0, b.1).term,
            i,
            n,
        ),
    decreases n,
{
    let (ta, tb) = (attended(to, a.0, a.1).term, attended(to, b.0, b.1).term);
    if n <= 0 {
        assert(m.gathered(ta, i, n) == m.nothing && m.gathered(tb, i, n) == m.nothing);
    } else {
        lemma_gathered_alike(m, to, a, b, i, n - 1);
        lemma_gathered_next(m, to, a.0, a.1, i, n);
        lemma_gathered_next(m, to, b.0, b.1, i, n);
        assert(counts_alike(m, a, b, i, n - 1));
        let (ca, cb) = (m.cell_at(a.0.term, i, n - 1), m.cell_at(b.0.term, i, n - 1));
        if blocked_score(m, ca) && blocked_score(m, cb) {
            let x = choose|x: V| ca == #[trigger] (m.bin)(Op::BroadcastAdd, x, (m.cell)(true));
            let y = choose|y: V| cb == #[trigger] (m.bin)(Op::BroadcastAdd, y, (m.cell)(true));
            lemma_masked(m, m.gathered(ta, i, n - 1), x, true, m.at(a.1.term, n - 1));
            lemma_masked(m, m.gathered(tb, i, n - 1), y, true, m.at(b.1.term, n - 1));
        }
    }
}

/// Attention over as many keys, each of which counts alike, gives the same:
/// what a mask blocks may hold anything.
pub proof fn law_blocked_keys_do_not_matter<V>(
    m: Meaning<V>,
    to: Option<DType>,
    a: (Val, Val),
    b: (Val, Val),
    i: int,
)
    requires
        m.masks(),
        m.len(a.1.term) == m.len(b.1.term),
        forall|j: int| 0 <= j < m.len(a.1.term) ==> #[trigger] counts_alike(m, a, b, i, j),
    ensures
        m.same(attended(to, a.0, a.1), i, attended(to, b.0, b.1), i),
{
    let n = m.len(a.1.term);
    lemma_gathered_alike(m, to, a, b, i, n);
    lemma_gathered_next(m, to, a.0, a.1, i, 1);
    lemma_gathered_next(m, to, b.0, b.1, i, 1);
}

/// A row written at a counted position.
pub proof fn lemma_row_written<V>(m: Meaning<V>, c: Term, x: Term, p: Term, j: int)
    requires
        counted(p) is Some,
    ensures
        ({
            let t = Term::Tri(Op::KvRow, Box::new(c), Box::new(x), Box::new(p));
            &&& m.at(t, j) == (if j == counted(p)->0 {
                m.at(x, 0)
            } else {
                m.at(c, j)
            })
            &&& m.len(t) == m.len(c)
        }),
{
}

/// The row of a table at a counted position.
pub proof fn lemma_counted_row<V>(m: Meaning<V>, w: Weight, p: Val, i: int)
    requires
        counted(p.term) is Some,
    ensures
        m.at(bin(Op::IndexSelect(0), leaf(Op::Param(w)), p).term, i) == (m.row)(
            w,
            counted(p.term)->0 + i,
        ),
{
    reveal(bin);
}

/// The cell of a mask that was refreshed at a counted position.
pub proof fn lemma_mask_row<V>(m: Meaning<V>, mask: Val, i: int, j: int)
    requires
        cell_blocked(mask.term, j) is Some,
    ensures
        m.cell_at(mask.term, i, j) == (m.cell)(cell_blocked(mask.term, j)->0),
{
}

/// The inputs of a scan.
pub struct Scan {
    pub q: Val,
    pub k: Val,
    pub v: Val,
    pub beta: Val,
    pub decay: Val,
}

impl Scan {
    pub open spec fn out(self, s: Term) -> Val {
        scan_output(self.q, self.k, self.v, self.beta, self.decay, s)
    }

    pub open spec fn state(self, s: Term) -> Term {
        scan_state(self.q, self.k, self.v, self.beta, self.decay, s)
    }

    /// Position `i` holds what position `j` of `other` holds.
    pub open spec fn same<V>(self, m: Meaning<V>, i: int, other: Scan, j: int) -> bool {
        &&& m.same(self.q, i, other.q, j)
        &&& m.same(self.k, i, other.k, j)
        &&& m.same(self.v, i, other.v, j)
        &&& m.same(self.beta, i, other.beta, j)
        &&& m.same(self.decay, i, other.decay, j)
    }

    /// Position `t + i` holds what position `i` of `other` holds.
    pub open spec fn goes_on<V>(self, m: Meaning<V>, t: int, other: Scan, i: int) -> bool {
        self.same(m, t + i, other, i)
    }
}

/// The output and the state of a scan go through the same states.
pub proof fn lemma_one_run<V>(m: Meaning<V>, a: Scan, s: Term, n: int)
    ensures
        m.after(a.out(s).term, n) == m.after(a.state(s), n),
    decreases n,
{
    if n > 0 {
        lemma_one_run(m, a, s, n - 1);
    }
}

/// Two scans that hold the same at `n` positions and begin in the same state go
/// through the same states.
pub proof fn lemma_same_run<V>(m: Meaning<V>, a: Scan, s: Term, b: Scan, r: Term, n: int)
    requires
        m.at(s, 0) == m.at(r, 0),
        forall|i: int| 0 <= i < n ==> #[trigger] a.same(m, i, b, i),
    ensures
        m.after(a.state(s), n) == m.after(b.state(r), n),
    decreases n,
{
    if n > 0 {
        lemma_same_run(m, a, s, b, r, n - 1);
        assert(a.same(m, n - 1, b, n - 1));
    }
}

/// From position `t` on, a scan goes through the states of a scan of the rest
/// that begins in its state there.
proof fn lemma_later_run<V>(m: Meaning<V>, a: Scan, s: Term, b: Scan, r: Term, t: int, n: int)
    requires
        0 <= t,
        m.after(a.state(s), t) == m.at(r, 0),
        forall|i: int| 0 <= i < n ==> #[trigger] a.goes_on(m, t, b, i),
    ensures
        n >= 0 ==> m.after(a.state(s), t + n) == m.after(b.state(r), n),
    decreases n,
{
    if n > 0 {
        lemma_later_run(m, a, s, b, r, t, n - 1);
        assert(a.goes_on(m, t, b, n - 1));
    }
}

/// A scan in two pieces, the second from the state that the first leaves, gives
/// the outputs and leaves the state of one scan over all of it.
pub proof fn law_scan_splits<V>(m: Meaning<V>, whole: Scan, first: Scan, second: Scan, s: Term)
    requires
        m.len(first.beta.term) >= 0,
        m.len(second.beta.term) >= 0,
        m.len(whole.beta.term) == m.len(first.beta.term) + m.len(second.beta.term),
        forall|i: int| 0 <= i < m.len(first.beta.term) ==> #[trigger] whole.same(m, i, first, i),
        forall|i: int|
            0 <= i < m.len(second.beta.term) ==> #[trigger] whole.goes_on(
                m,
                m.len(first.beta.term),
                second,
                i,
            ),
    ensures
        m.at(whole.state(s), 0) == m.at(second.state(first.state(s)), 0),
        forall|i: int|
            0 <= i < m.len(first.beta.term) ==> #[trigger] m.same(
                whole.out(s),
                i,
                first.out(s),
                i,
            ),
        forall|i: int|
            0 <= i < m.len(second.beta.term) ==> m.at(
                whole.out(s).term,
                m.len(first.beta.term) + i,
            ) == #[trigger] m.at(second.out(first.state(s)).term, i),
{
    let (t, u) = (m.len(first.beta.term), m.len(second.beta.term));
    let r = first.state(s);
    assert forall|i: int| 0 <= i <= t implies m.after(whole.state(s), i) == #[trigger] m.after(
        first.state(s),
        i,
    ) by {
        lemma_same_run(m, whole, s, first, s, i);
    }
    assert forall|i: int| 0 <= i < t implies #[trigger] m.same(
        whole.out(s),
        i,
        first.out(s),
        i,
    ) by {
        assert(whole.same(m, i, first, i));
        lemma_one_run(m, whole, s, i + 1);
        lemma_one_run(m, first, s, i + 1);
        assert(m.after(whole.state(s), i + 1) == m.after(first.state(s), i + 1));
    }
    assert(m.at(r, 0) == m.after(r, t));
    assert(m.after(whole.state(s), t) == m.after(first.state(s), t));
    assert forall|i: int| 0 <= i <= u implies m.after(whole.state(s), t + i) == #[trigger] m.after(
        second.state(r),
        i,
    ) by {
        lemma_later_run(m, whole, s, second, r, t, i);
    }
    assert forall|i: int| 0 <= i < u implies m.at(whole.out(s).term, t + i) == #[trigger] m.at(
        second.out(r).term,
        i,
    ) by {
        assert(whole.goes_on(m, t, second, i));
        lemma_one_run(m, whole, s, t + i + 1);
        lemma_one_run(m, second, r, i + 1);
        assert(m.after(whole.state(s), t + (i + 1)) == m.after(second.state(r), i + 1));
    }
    assert(m.after(whole.state(s), t + u) == m.after(second.state(r), u));
    assert(m.at(whole.state(s), 0) == m.after(whole.state(s), t + u));
    assert(m.at(second.state(r), 0) == m.after(second.state(r), u));
}

} // verus!
