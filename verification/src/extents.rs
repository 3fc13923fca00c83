//! What operations do to the extents of their operands.
use vstd::prelude::*;

use crate::dtype::DType;
use crate::tape::{bin, conv_extent, tri, un, Op, Val, Weight};

verus! {

/// A slice, a sum that keeps its axis or a mean changes one extent, to its length or to
/// one, and no other.
pub proof fn law_cut_changes_one_extent(a: Val, dim: usize, start: usize, len: usize, i: usize)
    requires
        dim < a.shape.rank <= 5,
    ensures
        ({
            let cut = un(Op::Narrow { dim, start, len }, a);
            let sum = un(Op::SumKeep(dim), a);
            let mean = un(Op::MeanKeep(dim), a);
            &&& cut.shape.rank == a.shape.rank && sum.shape.rank == a.shape.rank
            &&& mean.shape == sum.shape
            &&& cut.shape.get(dim) == len && sum.shape.get(dim) == 1
            &&& i != dim ==> cut.shape.get(i) == a.shape.get(i) && sum.shape.get(i)
                == a.shape.get(i)
            &&& cut.dtype == a.dtype && sum.dtype == a.dtype && mean.dtype == a.dtype
        }),
{
    reveal(un);
}

/// Exchanging two axes twice changes nothing; once, it moves each extent to the place of
/// the other.
pub proof fn law_exchanging_axes_twice(a: Val, i: usize, j: usize, k: usize)
    requires
        i < a.shape.rank <= 5,
        j < a.shape.rank,
    ensures
        ({
            let once = un(Op::Transpose(i, j), a);
            &&& un(Op::Transpose(i, j), once).shape == a.shape
            &&& once.shape.get(i) == a.shape.get(j) && once.shape.get(j) == a.shape.get(i)
            &&& k != i && k != j ==> once.shape.get(k) == a.shape.get(k)
            &&& once.shape.rank == a.shape.rank
        }),
{
    reveal(un);
}

/// A new axis has extent one, and choosing its only part takes it away again.
pub proof fn law_new_axis_can_be_taken_away(a: Val, i: usize)
    requires
        i <= a.shape.rank < 5,
        forall|k: usize| a.shape.rank <= k ==> #[trigger] a.shape.get(k) == 0,
    ensures
        ({
            let up = un(Op::Unsqueeze(i), a);
            &&& up.shape.rank == a.shape.rank + 1 && up.shape.get(i) == 1
            &&& un(Op::Select { dim: i, index: 0 }, up).shape == a.shape
            &&& un(Op::Sum(i), up).shape == a.shape
        }),
{
    reveal(un);
    assert(a.shape.get(0) == a.shape.d0 && a.shape.get(1) == a.shape.d1);
    assert(a.shape.get(2) == a.shape.d2 && a.shape.get(3) == a.shape.d3);
    assert(a.shape.get(4) == a.shape.d4);
}

/// Joined values are as long as both together along the axis, and as before along the
/// others; cutting the front off again gives the extents of the first.
pub proof fn law_join_adds_extents(a: Val, b: Val, dim: usize, i: usize)
    requires
        dim < a.shape.rank <= 5,
        a.shape.get(dim) + b.shape.get(dim) <= usize::MAX,
    ensures
        ({
            let both = bin(Op::Cat(dim), a, b);
            let front = un(Op::Narrow { dim, start: 0, len: a.shape.get(dim) }, both);
            &&& both.shape.get(dim) == a.shape.get(dim) + b.shape.get(dim)
            &&& i != dim ==> both.shape.get(i) == a.shape.get(i)
            &&& front.shape == a.shape
            &&& both.dtype == a.dtype
        }),
{
    reveal(un);
    reveal(bin);
}

/// A product has the rows of its first operand and the columns of its second. A
/// projection is as wide as its weight has rows.
pub proof fn law_product_extents(a: Val, b: Val, w: Weight, i: usize)
    requires
        1 <= a.shape.rank <= 5,
    ensures
        ({
            let last = (a.shape.rank - 1) as usize;
            let p = bin(Op::MatMul, a, b);
            let q = un(Op::Linear(w), a);
            &&& p.shape.rank == a.shape.rank && q.shape.rank == a.shape.rank
            &&& p.shape.get(last) == b.shape.last() && q.shape.get(last) == w.shape.d0
            &&& i != last ==> p.shape.get(i) == a.shape.get(i) && q.shape.get(i) == a.shape.get(i)
            &&& un(Op::QMatMul(w), a).shape == q.shape
            &&& un(Op::LinearBias(w, w), a).shape == q.shape
        }),
{
    reveal(un);
    reveal(bin);
}

/// Both halves of the last axis make up the whole of it, the first taking the odd one;
/// the kernel that joins them gives the extent of the second.
pub proof fn law_halves_make_up_the_whole(a: Val, act: crate::fused::SwigluAct)
    requires
        1 <= a.shape.rank <= 5,
    ensures
        ({
            let (h, k) = (un(Op::Half { index: 0 }, a), un(Op::Half { index: 1 }, a));
            &&& h.shape.last() + k.shape.last() == a.shape.last()
            &&& k.shape.last() <= h.shape.last() <= k.shape.last() + 1
            &&& un(Op::FusedSwiglu(act), a).shape == k.shape
        }),
{
    reveal(un);
}

/// Looked up, every number of `ids` becomes a row of the table.
pub proof fn law_embedding_adds_an_axis(ids: Val, w: Weight, i: usize)
    requires
        ids.shape.rank < 5,
    ensures
        ({
            let e = un(Op::Embedding(w), ids);
            &&& e.shape.rank == ids.shape.rank + 1
            &&& e.shape.last() == w.shape.d1 && e.dtype == w.dtype
            &&& i < ids.shape.rank ==> e.shape.get(i) == ids.shape.get(i)
        }),
{
    reveal(un);
}

/// A convolution has a place for its kernel at every step for which it fits into the
/// padded axis, and for no further one.
pub proof fn law_convolution_steps_as_far_as_it_fits(
    n: usize,
    kernel: usize,
    padding: usize,
    stride: usize,
    m: int,
)
    requires
        0 < stride,
        0 < kernel,
        n + 2 * padding < usize::MAX,
        0 <= m,
    ensures
        m < conv_extent(n, kernel, padding, stride) <==> m * stride + kernel <= n + 2 * padding,
{
    let room = n + 2 * padding - kernel;
    let s = stride as int;
    if room >= 0 {
        let q = room / s;
        assert(q * s <= room < q * s + s) by (nonlinear_arith)
            requires
                q == room / s,
                0 < s,
        ;
        assert(q <= room) by (nonlinear_arith)
            requires
                q * s <= room,
                0 < s,
                0 <= room,
        ;
        assert(0 <= q) by (nonlinear_arith)
            requires
                room < q * s + s,
                0 < s,
                0 <= room,
        ;
        assert(m <= q <==> m * s <= room) by (nonlinear_arith)
            requires
                q * s <= room < q * s + s,
                0 < s,
        ;
        assert(conv_extent(n, kernel, padding, stride) == q + 1);
    } else {
        assert(0 <= m * s) by (nonlinear_arith)
            requires
                0 <= m,
                0 < s,
        ;
    }
}

/// Conversion changes the element type and nothing else; sorted places are numbers.
pub proof fn law_conversion_keeps_extents(a: Val, d: DType)
    ensures
        un(Op::ToDType(d), a).shape == a.shape && un(Op::ToDType(d), a).dtype == d,
        un(Op::ArgSortDescending, a).shape == a.shape,
        un(Op::ArgSortDescending, a).dtype == DType::U32,
{
    reveal(un);
}

/// Chosen rows: as many as there are numbers, as wide as before.
pub proof fn law_chosen_rows(a: Val, b: Val, dim: usize, i: usize)
    requires
        dim < a.shape.rank <= 5,
    ensures
        bin(Op::IndexSelect(dim), a, b).shape.get(dim) == b.shape.d0,
        i != dim ==> bin(Op::IndexSelect(dim), a, b).shape.get(i) == a.shape.get(i),
        bin(Op::Gather(dim), a, b).shape == b.shape,
{
    reveal(bin);
}

/// The kernel that adds and norms gives two values of the extents of its operand; what
/// works element by element gives one.
pub proof fn law_both_parts_have_the_extents(a: Val, b: Val, c: Val, op: Op, index: usize)
    requires
        op is FusedAddRmsNorm,
        a.shape.rank < 5,
        forall|k: usize| a.shape.rank <= k ==> #[trigger] a.shape.get(k) == 0,
    ensures
        un(Op::Select { dim: 0, index }, tri(op, a, b, c)).shape == a.shape,
        tri(op, a, b, c).shape.d0 == 2,
        bin(Op::Add, a, b).shape == a.shape,
        bin(Op::Mul, a, b).shape == a.shape,
        tri(Op::Rope, a, b, c).shape == a.shape,
{
    reveal(un);
    reveal(bin);
    reveal(tri);
    assert(a.shape.get(0) == a.shape.d0 && a.shape.get(1) == a.shape.d1);
    assert(a.shape.get(2) == a.shape.d2 && a.shape.get(3) == a.shape.d3);
    assert(a.shape.get(4) == a.shape.d4);
}

} // verus!
