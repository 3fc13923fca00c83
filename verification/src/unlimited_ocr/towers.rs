//! What the vision towers do to the contents of a position.
use vstd::prelude::*;

use crate::contents::{
    law_layer_norm_of_each_position, lemma_at_bin, lemma_at_proj, lemma_at_un, lemma_listens,
};
use crate::dtype::DType;
use crate::error::Error;
use crate::fused::Reading;
use crate::positions::{
    attended, lemma_bin_extent, lemma_cell_product, lemma_cell_un, lemma_laid_out, lemma_un_extent,
    Meaning,
};
use crate::shape::{d2, d3, d5, sat_product, Shape};
use crate::tape::{bin, leaf, un, Op, Scalar, Val};
use crate::unlimited_ocr::vision::{
    floor_sqrt, positions, quick_gelued, ClipTower, DeepEncoder, NoTpBlock,
};

verus! {

/// `x` times the logistic function of `1.702 x`, position by position.
pub proof fn law_quick_gelu_of_each_position<V>(m: Meaning<V>, x: Val, i: int)
    ensures
        ({
            let v = m.at(x.term, i);
            let slope = Op::MulScalar(Scalar::F64(0x3ffb_3b64_5a1c_ac08));
            m.at(quick_gelued(x).term, i) == (m.bin)(
                Op::Mul,
                v,
                (m.un)(Op::Sigmoid, (m.un)(slope, v)),
            )
        }),
        m.len(quick_gelued(x).term) == m.len(x.term),
{
    let slope = Op::MulScalar(Scalar::F64(0x3ffb_3b64_5a1c_ac08));
    lemma_at_un(m, slope, x, i);
    lemma_at_un(m, Op::Sigmoid, un(slope, x), i);
    lemma_at_bin(m, Op::Mul, x, un(Op::Sigmoid, un(slope, x)), i);
}

/// Query, key or value of a position.
proof fn lemma_part_at<V>(m: Meaning<V>, b: NoTpBlock, x: Val, p: usize, i: int)
    ensures
        m.at(b.part(x, p).term, i) == (m.un)(
            Op::Select { dim: 2, index: p },
            m.projected(b.qkv_proj, m.at(x.term, i)),
        ),
        m.len(b.part(x, p).term) == m.len(x.term),
{
    let split = Op::Reshape(d5(x.shape.d0, x.shape.d1, 3, b.n_heads, b.head_dim));
    let all = b.qkv_proj.apply(x);
    let own = Op::Select { dim: 2, index: p };
    lemma_at_proj(m, b.qkv_proj, x, i);
    lemma_laid_out(m, split, all, i);
    lemma_at_un(m, own, un(split, all), i);
    lemma_laid_out(m, Op::Transpose(1, 2), un(own, un(split, all)), i);
}

/// Attention of a position of the second tower: the mean of the values of all
/// positions, by the softmax of the scaled scores of their keys, projected.
pub proof fn law_tower_attention_hears_everything<V>(
    m: Meaning<V>,
    b: NoTpBlock,
    x: Val,
    i: int,
    item: spec_fn(int) -> (V, V),
)
    requires
        m.masks(),
        0 <= m.len(x.term),
        ({
            let part = |p: usize, j: int|
                (m.un)(
                    Op::Select { dim: 2, index: p },
                    m.projected(b.qkv_proj, m.at(x.term, j)),
                );
            forall|j: int|
                0 <= j < m.len(x.term) ==> #[trigger] item(j) == (
                    (m.un)(
                        Op::MulScalar(Scalar::PowNegHalf(b.head_dim)),
                        (m.score)(part(0, i), part(1, j)),
                    ),
                    part(2, j),
                )
        }),
    ensures
        m.at(b.attended(x).term, i) == m.projected(
            b.out_proj,
            (m.mean)(m.taken(item, 0, m.len(x.term), m.nothing)),
        ),
        m.len(b.attended(x).term) == m.len(x.term),
{
    let (q, k, v) = (b.part(x, 0), b.part(x, 1), b.part(x, 2));
    let scale = Op::MulScalar(Scalar::PowNegHalf(b.head_dim));
    let wide = Op::ToDType(DType::F32);
    let product = bin(Op::MatMul, q, un(Op::Transpose(2, 3), k));
    let scores = un(wide, un(scale, product));
    lemma_part_at(m, b, x, 0, i);
    lemma_part_at(m, b, x, 1, i);
    lemma_part_at(m, b, x, 2, i);
    let n = m.len(v.term);
    assert forall|j: int| 0 <= j < n implies (if 0 <= j < n {
        (m.cell_at(scores.term, i, j), #[trigger] m.at(v.term, j)) == item(j)
    } else {
        crate::positions::blocked_score(m, m.cell_at(scores.term, i, j))
    }) by {
        lemma_part_at(m, b, x, 1, j);
        lemma_part_at(m, b, x, 2, j);
        lemma_cell_product(m, q, Op::Transpose(2, 3), k, i, j);
        lemma_cell_un(m, scale, product, i, j);
        lemma_cell_un(m, wide, un(scale, product), i, j);
    }
    lemma_listens(m, Some(q.dtype), scores, v, i, item, 0, n);
    lemma_bin_extent(m, Op::MatMul, q, un(Op::Transpose(2, 3), k));
    lemma_un_extent(m, scale, product);
    lemma_un_extent(m, wide, un(scale, product));
    let mixed = attended(Some(q.dtype), scores, v);
    let swap = Op::Transpose(1, 2);
    let flat = Op::Reshape(d3(x.shape.d0, x.shape.d1, x.shape.d2));
    lemma_laid_out(m, swap, mixed, i);
    lemma_laid_out(m, flat, un(swap, mixed), i);
    lemma_at_proj(m, b.out_proj, un(flat, un(swap, mixed)), i);
}

/// A block of the second tower adds to each position what attention gives on the
/// normed input, and to that sum what the feed-forward branch gives on its norm.
pub proof fn law_block_adds_both_branches<V>(m: Meaning<V>, b: NoTpBlock, x: Val, i: int)
    requires
        x.shape.rank == 3,
    ensures
        ({
            let eps = Scalar::F32(0x3ee4_f8b5_88e3_68f1);
            let y = un(Op::LayerNorm(b.ln1.weight, b.ln1.bias, eps), x);
            let h = (m.bin)(Op::Add, m.at(x.term, i), m.at(b.attended(y).term, i));
            let g = m.projected(b.fc1, (m.un)(Op::LayerNorm(b.ln2.weight, b.ln2.bias, eps), h));
            let slope = Op::MulScalar(Scalar::F64(0x3ffb_3b64_5a1c_ac08));
            let act = (m.bin)(Op::Mul, g, (m.un)(Op::Sigmoid, (m.un)(slope, g)));
            &&& b.apply(x) matches Ok(out)
            &&& m.at(out.term, i) == (m.bin)(Op::Add, h, m.projected(b.fc2, act))
            &&& m.len(out.term) == m.len(x.term) && out.shape == x.shape
        }),
{
    let y = b.ln1.apply(x);
    law_layer_norm_of_each_position(m, b.ln1, x, i);
    let a = b.attended(y);
    let h = bin(Op::Add, x, a);
    lemma_at_bin(m, Op::Add, x, a, i);
    law_layer_norm_of_each_position(m, b.ln2, h, i);
    let g = b.fc1.apply(b.ln2.apply(h));
    lemma_at_proj(m, b.fc1, b.ln2.apply(h), i);
    law_quick_gelu_of_each_position(m, g, i);
    lemma_at_proj(m, b.fc2, quick_gelued(g), i);
    lemma_at_bin(m, Op::Add, h, b.fc2.apply(quick_gelued(g)), i);
    reveal(bin);
}

/// A block whose second feed-forward projection gives nothing passes on its input
/// plus the attention of the normed input; one whose attention gives nothing either
/// passes its input on.
pub proof fn law_silent_feed_forward_leaves_attention<V>(
    m: Meaning<V>,
    b: NoTpBlock,
    x: Val,
    z: V,
    i: int,
)
    requires
        x.shape.rank == 3,
        m.adds_nothing(z),
        forall|v: V| #[trigger] m.projected(b.fc2, v) == z,
    ensures
        ({
            let a = m.at(b.attended(b.ln1.apply(x)).term, i);
            &&& b.apply(x) matches Ok(out)
            &&& m.at(out.term, i) == (m.bin)(Op::Add, m.at(x.term, i), a)
            &&& a == z ==> m.at(out.term, i) == m.at(x.term, i)
        }),
{
    law_block_adds_both_branches(m, b, x, i);
    let a = m.at(b.attended(b.ln1.apply(x)).term, i);
    let h = (m.bin)(Op::Add, m.at(x.term, i), a);
    assert((m.bin)(Op::Add, h, z) == h);
    assert((m.bin)(Op::Add, m.at(x.term, i), z) == m.at(x.term, i));
}

/// Two blocks that differ only in their attention: from the same input, what the
/// feed-forward branch is given differs by exactly what attention adds. Where both
/// feed-forward branches are silent, the output of each plus the attention of the
/// other is the same.
pub proof fn law_attentions_can_be_exchanged<V>(
    m: Meaning<V>,
    b: NoTpBlock,
    c: NoTpBlock,
    x: Val,
    z: V,
    i: int,
)
    requires
        m.sums(),
        x.shape.rank == 3,
        m.adds_nothing(z),
        forall|v: V| #[trigger] m.projected(b.fc2, v) == z,
        forall|v: V| #[trigger] m.projected(c.fc2, v) == z,
    ensures
        b.apply(x) is Ok && c.apply(x) is Ok,
        (m.bin)(
            Op::Add,
            m.at(b.apply(x)->Ok_0.term, i),
            m.at(c.attended(c.ln1.apply(x)).term, i),
        ) == (m.bin)(
            Op::Add,
            m.at(c.apply(x)->Ok_0.term, i),
            m.at(b.attended(b.ln1.apply(x)).term, i),
        ),
{
    law_silent_feed_forward_leaves_attention(m, b, x, z, i);
    law_silent_feed_forward_leaves_attention(m, c, x, z, i);
    let v = m.at(x.term, i);
    let (p, q) = (
        m.at(b.attended(b.ln1.apply(x)).term, i),
        m.at(c.attended(c.ln1.apply(x)).term, i),
    );
    assert((m.bin)(Op::Add, (m.bin)(Op::Add, v, p), q) == (m.bin)(
        Op::Add,
        v,
        (m.bin)(Op::Add, p, q),
    ));
    assert((m.bin)(Op::Add, (m.bin)(Op::Add, v, q), p) == (m.bin)(
        Op::Add,
        v,
        (m.bin)(Op::Add, q, p),
    ));
    assert((m.bin)(Op::Add, p, q) == (m.bin)(Op::Add, q, p));
}

/// Blocks follow each other: a tower of the blocks of two towers gives on `x` what
/// the second gives on what the first gives.
pub proof fn law_blocks_follow_each_other(
    all: ClipTower,
    first: ClipTower,
    second: ClipTower,
    x: Val,
    n: int,
)
    requires
        all.blocks@ == first.blocks@ + second.blocks@,
        0 <= n <= second.blocks.len(),
    ensures
        all.through(x, first.blocks.len() + n) == (match first.through(
            x,
            first.blocks.len() as int,
        ) {
            Err(e) => Err::<Val, Error>(e),
            Ok(y) => second.through(y, n),
        }),
    decreases n,
{
    if n > 0 {
        law_blocks_follow_each_other(all, first, second, x, n - 1);
        assert(all.blocks@[first.blocks.len() + n - 1] == second.blocks@[n - 1]);
    } else {
        lemma_same_start(all, first, x, first.blocks.len() as int);
    }
}

proof fn lemma_same_start(all: ClipTower, first: ClipTower, x: Val, n: int)
    requires
        n <= first.blocks.len() <= all.blocks.len(),
        forall|i: int| 0 <= i < first.blocks.len() ==> all.blocks@[i] == #[trigger] first.blocks@[i],
    ensures
        all.through(x, n) == first.through(x, n),
    decreases n,
{
    if n > 0 {
        lemma_same_start(all, first, x, n - 1);
        assert(all.blocks@[n - 1] == first.blocks@[n - 1]);
    }
}

/// A tower of one block gives what the block gives.
pub proof fn law_one_block(t: ClipTower, x: Val)
    requires
        t.blocks.len() == 1,
    ensures
        t.through(x, 1) == t.blocks[0].apply(x),
{
    reveal_with_fuel(ClipTower::through, 2);
}

/// A reading of the rows of values `[b, rows, width]`, the second axis: rows are
/// joined, cut out and repeated as the operations say.
#[verifier::reject_recursive_types(E)]
pub struct Rows<E> {
    pub row: spec_fn(Val, int) -> E,
    /// A row in another element type.
    pub cast: spec_fn(DType, E) -> E,
    /// Two rows side by side.
    pub beside: spec_fn(E, E) -> E,
}

impl<E> Rows<E> {
    pub open spec fn joins(self) -> bool {
        forall|a: Val, b: Val, j: int|
            a.shape.rank == 3 && b.shape.rank == 3 ==> #[trigger] (self.row)(
                bin(Op::Cat(1), a, b),
                j,
            ) == (if j < a.shape.d1 {
                (self.row)(a, j)
            } else {
                (self.row)(b, j - a.shape.d1)
            })
    }

    pub open spec fn cuts(self) -> bool {
        forall|a: Val, start: usize, len: usize, j: int|
            0 <= j < len ==> #[trigger] (self.row)(un(Op::Narrow { dim: 1, start, len }, a), j) == (
            self.row)(a, start + j)
    }

    pub open spec fn casts(self) -> bool {
        forall|a: Val, d: DType, j: int| #[trigger]
            (self.row)(un(Op::ToDType(d), a), j) == (self.cast)(d, (self.row)(a, j))
    }

    pub open spec fn pairs(self) -> bool {
        forall|a: Val, b: Val, j: int| #[trigger]
            (self.row)(bin(Op::Cat(2), a, b), j) == (self.beside)((self.row)(a, j), (self.row)(b, j))
    }

    pub open spec fn repeats(self) -> bool {
        forall|a: Val, s: Shape, j: int|
            0 <= j < s.d1 ==> #[trigger] (self.row)(un(Op::Expand(s), a), j) == (self.row)(a, 0)
    }
}

/// The class comes first, then the cells of the features in order.
pub proof fn law_class_comes_first<E>(r: Rows<E>, t: ClipTower, f: Val, j: int)
    requires
        r.joins() && r.casts() && r.repeats(),
        f.shape.rank == 4,
        0 <= j,
    ensures
        ({
            let (b, c) = (f.shape.d0, f.shape.d1);
            let cells = un(
                Op::Transpose(1, 2),
                un(Op::Reshape(d3(b, c, sat_product(f.shape.d2, f.shape.d3))), f),
            );
            let class = un(Op::Reshape(d3(1, 1, c)), leaf(Op::Param(t.class_embedding)));
            &&& (r.row)(t.tokens(f), 0) == (r.cast)(f.dtype, (r.row)(class, 0))
            &&& (r.row)(t.tokens(f), j + 1) == (r.row)(cells, j)
        }),
{
    let (b, c) = (f.shape.d0, f.shape.d1);
    let flat = un(Op::Reshape(d3(b, c, sat_product(f.shape.d2, f.shape.d3))), f);
    let cells = un(Op::Transpose(1, 2), flat);
    let class = un(Op::Reshape(d3(1, 1, c)), leaf(Op::Param(t.class_embedding)));
    let wide = un(Op::Expand(d3(b, 1, c)), class);
    let cls = un(Op::ToDType(cells.dtype), wide);
    assert(cells.dtype == f.dtype && cells.shape.rank == 3 && cls.shape == d3(b, 1, c)) by {
        reveal(un);
    }
    assert((r.row)(cls, 0) == (r.cast)(cells.dtype, (r.row)(wide, 0)));
    assert((r.row)(wide, 0) == (r.row)(class, 0));
    assert((r.row)(bin(Op::Cat(1), cls, cells), 0) == (r.row)(cls, 0));
    assert((r.row)(bin(Op::Cat(1), cls, cells), j + 1) == (r.row)(cells, j));
}

/// A position table for another grid keeps its class row; the rest is its grid,
/// resampled. For its own grid it stays as it is.
pub proof fn law_resized_positions<E>(r: Rows<E>, pos: Val, grid: usize, j: int)
    requires
        r.joins() && r.casts() && r.cuts(),
        pos.shape.rank == 3,
        0 <= j,
    ensures
        positions(pos, grid) matches Ok(p) ==> {
            let src = floor_sqrt((pos.shape.d1 - 1) as nat);
            &&& src * src + 1 == pos.shape.d1
            &&& src == grid ==> p == pos
            &&& src != grid && pos.shape.d1 > 0 ==> {
                let wide = |v: E| (r.cast)(pos.dtype, v);
                let f = un(Op::ToDType(DType::F32), pos);
                let cells = un(
                    Op::Narrow { dim: 1, start: 1, len: (pos.shape.d1 - 1) as usize },
                    f,
                );
                let resampled = un(Op::InterpolatePositions { grid }, cells);
                &&& (r.row)(p, 0) == wide((r.cast)(DType::F32, (r.row)(pos, 0)))
                &&& (r.row)(p, j + 1) == wide((r.row)(resampled, j))
                &&& j < pos.shape.d1 - 1 ==> (r.row)(cells, j) == (r.cast)(
                    DType::F32,
                    (r.row)(pos, j + 1),
                )
            }
        },
{
    let n = pos.shape.d1;
    let f = un(Op::ToDType(DType::F32), pos);
    let class = un(Op::Narrow { dim: 1, start: 0, len: 1 }, f);
    let cells = un(Op::Narrow { dim: 1, start: 1, len: (n - 1) as usize }, f);
    let resampled = un(Op::InterpolatePositions { grid }, cells);
    let all = bin(Op::Cat(1), class, resampled);
    if n > 0 {
        assert(f.shape == pos.shape && class.shape.rank == 3 && class.shape.d1 == 1
            && resampled.shape.rank == 3) by {
            reveal(un);
        }
        assert((r.row)(f, 0) == (r.cast)(DType::F32, (r.row)(pos, 0)));
        assert((r.row)(class, 0) == (r.row)(f, 0));
        assert((r.row)(all, 0) == (r.row)(class, 0));
        assert((r.row)(all, j + 1) == (r.row)(resampled, j));
        assert((r.row)(un(Op::ToDType(pos.dtype), all), 0) == (r.cast)(
            pos.dtype,
            (r.row)(all, 0),
        ));
        assert((r.row)(un(Op::ToDType(pos.dtype), all), j + 1) == (r.cast)(
            pos.dtype,
            (r.row)(all, j + 1),
        ));
        if j < n - 1 {
            assert((r.row)(cells, j) == (r.row)(f, 1 + j));
            assert((r.row)(f, 1 + j) == (r.cast)(DType::F32, (r.row)(pos, 1 + j)));
        }
    }
}

/// The tower's blocks work on the norm of the tokens plus their positions: what
/// position `i` holds when it enters the first block.
pub proof fn law_tower_adds_positions<V>(m: Meaning<V>, t: ClipTower, f: Val)
    requires
        t.apply(f) is Ok,
    ensures
        exists|y: Val|
            #![trigger t.through(y, t.blocks.len() as int)]
            {
                let c = f.shape.d1;
                let native = un(
                    Op::Reshape(d3(1, (263168nat / c as nat) as usize, c)),
                    leaf(Op::Param(t.position_embedding)),
                );
                &&& t.apply(f) == t.through(y, t.blocks.len() as int)
                &&& positions(native, f.shape.d2) matches Ok(pos)
                &&& forall|i: int|
                    m.at(y.term, i) == (m.un)(
                        Op::LayerNorm(
                            t.pre_ln.weight,
                            t.pre_ln.bias,
                            Scalar::F32(0x3ee4_f8b5_88e3_68f1),
                        ),
                        (m.bin)(
                            Op::BroadcastAdd,
                            m.at(t.tokens(f).term, i),
                            (m.un)(Op::ToDType(f.dtype), #[trigger] m.at(pos.term, i)),
                        ),
                    )
            },
{
    let c = f.shape.d1;
    let native = un(
        Op::Reshape(d3(1, (263168nat / c as nat) as usize, c)),
        leaf(Op::Param(t.position_embedding)),
    );
    let x = t.tokens(f);
    let pos = positions(native, f.shape.d2)->Ok_0;
    let p = un(Op::ToDType(x.dtype), pos);
    let sum = bin(Op::BroadcastAdd, x, p);
    let y = t.pre_ln.apply(sum);
    assert(x.dtype == f.dtype) by {
        reveal(un);
        reveal(bin);
    }
    assert forall|i: int| m.at(y.term, i) == (m.un)(
        Op::LayerNorm(t.pre_ln.weight, t.pre_ln.bias, Scalar::F32(0x3ee4_f8b5_88e3_68f1)),
        (m.bin)(
            Op::BroadcastAdd,
            m.at(x.term, i),
            (m.un)(Op::ToDType(f.dtype), #[trigger] m.at(pos.term, i)),
        ),
    ) by {
        lemma_at_un(m, Op::ToDType(x.dtype), pos, i);
        lemma_at_bin(m, Op::BroadcastAdd, x, p, i);
        law_layer_norm_of_each_position(m, t.pre_ln, sum, i);
    }
    assert(t.apply(f) == t.through(y, t.blocks.len() as int));
}

/// Each cell of the merged features is that cell of the second tower, whose class
/// is dropped, beside that cell of the first.
pub proof fn law_merged_cells_stand_side_by_side<E>(r: Rows<E>, f1: Val, f2: Val, j: int)
    requires
        r.cuts() && r.pairs(),
        0 <= j < f2.shape.d1 - 1,
    ensures
        ({
            let flat = d3(f1.shape.d0, f1.shape.d1, sat_product(f1.shape.d2, f1.shape.d3));
            let cells = un(Op::Transpose(1, 2), un(Op::Reshape(flat), f1));
            (r.row)(DeepEncoder::merged(f1, f2), j) == (r.beside)(
                (r.row)(f2, j + 1),
                (r.row)(cells, j),
            )
        }),
{
    let flat = d3(f1.shape.d0, f1.shape.d1, sat_product(f1.shape.d2, f1.shape.d3));
    let cells = un(Op::Transpose(1, 2), un(Op::Reshape(flat), f1));
    let rest = (f2.shape.d1 - 1) as usize;
    let own = un(Op::Narrow { dim: 1, start: 1, len: rest }, f2);
    assert((r.row)(own, j) == (r.row)(f2, 1 + j));
    assert((r.row)(bin(Op::Cat(2), own, cells), j) == (r.beside)(
        (r.row)(own, j),
        (r.row)(cells, j),
    ));
}

/// Features of an image: the image encoder, then both strided convolutions, each
/// with its own weights.
pub proof fn law_features_go_through_both_convolutions<V>(m: Reading<V>, e: DeepEncoder, img: Val)
    ensures
        m.of(e.features(img).term) == (m.un)(
            Op::Conv2d { weight: e.net_3, padding: 1, stride: 2 },
            (m.un)(
                Op::Conv2d { weight: e.net_2, padding: 1, stride: 2 },
                (m.un)(
                    Op::SamEncoder { weight: e.sam, patch: 16, channels: 256 },
                    m.of(img.term),
                ),
            ),
        ),
{
    reveal(un);
    reveal_with_fuel(Reading::of, 4);
}

/// A view is put together from both towers on the same image.
pub proof fn law_both_towers_see_the_image(e: DeepEncoder, img: Val, f2: Val)
    requires
        e.clip.apply(e.features(img)) == Ok::<Val, Error>(f2),
    ensures
        e.view_of(img) == Ok::<Val, Error>(e.assembled(e.features(img), f2)),
{
}

/// The towers treat the crops of a batch one by one: each becomes what `tower` makes of
/// it.
pub open spec fn treats_crops<E>(
    crop: spec_fn(Val, int) -> E,
    tower: spec_fn(E) -> E,
    e: DeepEncoder,
) -> bool {
    forall|p: Val, f2: Val|
        e.clip.apply(e.features(p)) == Ok::<Val, Error>(f2) ==> ({
            let out = #[trigger] e.projector.apply(DeepEncoder::merged(e.features(p), f2));
            &&& out.shape.d0 == p.shape.d0
            &&& forall|j: int|
                0 <= j < p.shape.d0 ==> #[trigger] crop(out, j) == tower(crop(p, j))
        })
}

/// The first `k` batches of crops.
proof fn lemma_batches<E>(
    crop: spec_fn(Val, int) -> E,
    tower: spec_fn(E) -> E,
    e: DeepEncoder,
    crops: Val,
    k: int,
    j: int,
)
    requires
        treats_crops(crop, tower, e),
        forall|a: Val, b: Val, j: int|
            #[trigger] crop(bin(Op::Cat(0), a, b), j) == (if j < a.shape.d0 {
                crop(a, j)
            } else {
                crop(b, j - a.shape.d0)
            }),
        forall|a: Val, start: usize, len: usize, j: int|
            0 <= j < len ==> #[trigger] crop(un(Op::Narrow { dim: 0, start, len }, a), j) == crop(
                a,
                start + j,
            ),
        1 <= k,
        8 * (k - 1) < crops.shape.d0,
        e.locals(crops, k) is Ok,
    ensures
        ({
            let a = e.locals(crops, k)->Ok_0;
            let n = crops.shape.d0;
            &&& a.shape.d0 == (if 8 * k < n {
                8 * k
            } else {
                n as int
            })
            &&& 0 <= j < a.shape.d0 ==> crop(a, j) == tower(crop(crops, j))
        }),
    decreases k,
{
    let n = crops.shape.d0;
    let from = 8 * (k - 1);
    let len = DeepEncoder::crops_from(n, from);
    let part = un(Op::Narrow { dim: 0, start: from as usize, len }, crops);
    assert(part.shape.d0 == len) by {
        reveal(un);
    }
    let f1 = e.features(part);
    let f2 = e.clip.apply(f1)->Ok_0;
    let b = e.projector.apply(DeepEncoder::merged(f1, f2));
    if k > 1 {
        lemma_batches(crop, tower, e, crops, k - 1, j);
        let a = e.locals(crops, k - 1)->Ok_0;
        assert(e.batch(crops, from) == Ok::<Val, Error>(b));
        assert(bin(Op::Cat(0), a, b).shape.d0 == from + len) by {
            reveal(bin);
        }
        if from <= j < from + len {
            assert(crop(bin(Op::Cat(0), a, b), j) == crop(b, j - from));
            assert(crop(b, j - from) == tower(crop(part, j - from)));
            assert(crop(part, j - from) == crop(crops, from + (j - from)));
        } else if 0 <= j < from {
            assert(crop(bin(Op::Cat(0), a, b), j) == crop(a, j));
        }
    } else {
        assert(e.batch(crops, 0) == Ok::<Val, Error>(b));
        if 0 <= j < len {
            assert(crop(b, j) == tower(crop(part, j)));
            assert(crop(part, j) == crop(crops, 0 + j));
        }
    }
}

/// Every crop goes through both towers and the projector, in its place, whatever batch
/// it falls into: in every reading of crops that the towers treat one by one.
pub proof fn law_every_crop_goes_through_the_towers<E>(
    crop: spec_fn(Val, int) -> E,
    tower: spec_fn(E) -> E,
    e: DeepEncoder,
    crops: Val,
    j: int,
)
    requires
        treats_crops(crop, tower, e),
        forall|a: Val, b: Val, j: int|
            #[trigger] crop(bin(Op::Cat(0), a, b), j) == (if j < a.shape.d0 {
                crop(a, j)
            } else {
                crop(b, j - a.shape.d0)
            }),
        forall|a: Val, start: usize, len: usize, j: int|
            0 <= j < len ==> #[trigger] crop(un(Op::Narrow { dim: 0, start, len }, a), j) == crop(
                a,
                start + j,
            ),
        e.all_locals(crops) is Ok,
        0 <= j < crops.shape.d0,
    ensures
        crop(e.all_locals(crops)->Ok_0, j) == tower(crop(crops, j)),
        e.all_locals(crops)->Ok_0.shape.d0 == crops.shape.d0,
{
    lemma_batches(crop, tower, e, crops, DeepEncoder::batches(crops.shape.d0), j);
}

} // verus!
