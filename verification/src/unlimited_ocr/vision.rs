//! Vision towers: a windowed image encoder with two strided convolutions, whose
//! features are the patches of a second tower; both go through a projector into
//! the embedding space of the decoder.
use vstd::prelude::*;

use crate::dtype::DType;
use crate::error::Error;
use crate::fused::lemma_contiguous;
use crate::layer_norm::LayerNorm;
use crate::loader::{changed, decimal, plain, pp, Loader, Proj, Recipe, SamConfig, VarPath};
use crate::shape::{
    d1, d2, d3, d4, d5, sat_product, sat_sum, saturating_product, saturating_sum,
};
use crate::tape::{bin, leaf, un, Op, Scalar, Tape, Tensor, Val, Weight};

verus! {

/// Bits of `1.702` in double precision.
pub const GELU_SLOPE: u64 = 0x3ffb_3b64_5a1c_ac08;

/// Crops that go through the towers at a time.
pub const CROPS_AT_ONCE: usize = 8;

/// Width of the second tower, and of its position table.
pub const CLIP_WIDTH: usize = 1024;

/// Rows of the position table: a grid of 16 by 16 and the class.
pub const CLIP_POSITIONS: usize = 257;

/// Width of the decoder's embeddings.
pub const EMBED_WIDTH: usize = 1280;

/// The root of the largest square up to `n`.
pub open spec fn floor_sqrt(n: nat) -> nat {
    choose|r: nat| #[trigger] (r * r) <= n && n < (r + 1) * (r + 1)
}

/// There is only one such root.
proof fn lemma_floor_sqrt(n: nat, r: nat)
    requires
        r * r <= n,
        n < (r + 1) * (r + 1),
    ensures
        floor_sqrt(n) == r,
{
    let s = floor_sqrt(n);
    assert(s * s <= n && n < (s + 1) * (s + 1));
    assert(s == r) by (nonlinear_arith)
        requires
            s * s <= n,
            n < (s + 1) * (s + 1),
            r * r <= n,
            n < (r + 1) * (r + 1),
    ;
}

/// The square root of a square is its side.
pub proof fn law_square_side(side: nat)
    ensures
        floor_sqrt(side * side) == side,
{
    assert(side * side < (side + 1) * (side + 1)) by (nonlinear_arith);
    lemma_floor_sqrt(side * side, side);
}

pub fn isqrt(n: usize) -> (r: usize)
    ensures
        r == floor_sqrt(n as nat),
        r * r <= n,
{
    let mut lo: usize = 0;
    let mut hi: usize = n;
    while lo < hi
        invariant
            lo <= hi <= n,
            lo * lo <= n,
            hi < n ==> n < (hi + 1) * (hi + 1),
        decreases hi - lo,
    {
        let mid: usize = lo + (hi - lo) / 2 + (hi - lo) % 2;
        let q: usize = n / mid;
        proof {
            assert(q * mid <= n < (q + 1) * mid) by (nonlinear_arith)
                requires
                    q == n / mid,
                    mid > 0,
            ;
        }
        if mid <= q {
            assert(mid * mid <= n) by (nonlinear_arith)
                requires
                    mid <= q,
                    q * mid <= n,
                    mid > 0,
            ;
            lo = mid;
        } else {
            assert(n < mid * mid) by (nonlinear_arith)
                requires
                    mid >= q + 1,
                    n < (q + 1) * mid,
                    mid > 0,
            ;
            hi = mid - 1;
        }
    }
    proof {
        assert(n < (lo + 1) * (lo + 1)) by {
            if hi == n {
                assert(n < (n + 1) * (n + 1)) by (nonlinear_arith);
            }
        }
        lemma_floor_sqrt(n as nat, lo as nat);
    }
    lo
}

/// `x` times the logistic function of a multiple of it.
pub open spec fn quick_gelued(x: Val) -> Val {
    bin(Op::Mul, x, un(Op::Sigmoid, un(Op::MulScalar(Scalar::F64(GELU_SLOPE)), x)))
}

pub fn quick_gelu(t: &mut Tape, x: Tensor) -> (r: Tensor)
    requires
        old(t).has(x),
    ensures
        final(t).computed(*old(t)),
        final(t).has(r),
        r@ == quick_gelued(x@),
{
    let y = t.un(Op::MulScalar(Scalar::F64(GELU_SLOPE)), x);
    let y = t.un(Op::Sigmoid, y);
    t.bin(Op::Mul, x, y)
}

/// Transformer block of the second tower.
#[derive(Clone, Copy, PartialEq, Eq, Structural, Debug)]
pub struct NoTpBlock {
    pub ln1: LayerNorm,
    pub ln2: LayerNorm,
    pub qkv_proj: Proj,
    pub out_proj: Proj,
    pub fc1: Proj,
    pub fc2: Proj,
    pub n_heads: usize,
    pub head_dim: usize,
}

impl NoTpBlock {
    pub open spec fn asked(
        self,
        l: Loader,
        hidden: usize,
        heads: usize,
        ffn: usize,
        vb: Seq<char>,
    ) -> bool {
        let attn = pp(vb, "self_attn"@);
        let mlp = pp(vb, "mlp"@);
        &&& self.ln1.asked(l, hidden, pp(vb, "layer_norm1"@))
        &&& self.ln2.asked(l, hidden, pp(vb, "layer_norm2"@))
        &&& self.qkv_proj.asked(
            l,
            hidden,
            sat_product(hidden, 3),
            true,
            pp(attn, "qkv_proj"@),
            None,
        )
        &&& self.out_proj.asked(l, hidden, hidden, true, pp(attn, "out_proj"@), None)
        &&& self.fc1.asked(l, hidden, ffn, true, pp(mlp, "fc1"@), None)
        &&& self.fc2.asked(l, ffn, hidden, true, pp(mlp, "fc2"@), None)
        &&& self.n_heads == heads
        &&& self.head_dim == hidden / heads
    }

    pub fn new(l: &mut Loader, hidden: usize, heads: usize, ffn: usize, vb: &VarPath) -> (r:
        NoTpBlock)
        requires
            heads > 0,
        ensures
            final(l).grew(*old(l)),
            final(l).added(*old(l), 12),
            r.asked(*final(l), hidden, heads, ffn, vb@),
    {
        let ln1 = LayerNorm::new(l, hidden, &vb.pp("layer_norm1"));
        let ln2 = LayerNorm::new(l, hidden, &vb.pp("layer_norm2"));
        let attn = vb.pp("self_attn");
        let wide: usize = saturating_product(hidden, 3);
        let qkv_proj = Proj::dense(l, hidden, wide, true, &attn.pp("qkv_proj"));
        let out_proj = Proj::dense(l, hidden, hidden, true, &attn.pp("out_proj"));
        let mlp = vb.pp("mlp");
        let fc1 = Proj::dense(l, hidden, ffn, true, &mlp.pp("fc1"));
        let fc2 = Proj::dense(l, ffn, hidden, true, &mlp.pp("fc2"));
        NoTpBlock {
            ln1,
            ln2,
            qkv_proj,
            out_proj,
            fc1,
            fc2,
            n_heads: heads,
            head_dim: hidden / heads,
        }
    }

    /// Query, key or value of every head: part `i` of the joint projection.
    pub open spec fn part(self, x: Val, i: usize) -> Val {
        let split = Op::Reshape(d5(x.shape.d0, x.shape.d1, 3, self.n_heads, self.head_dim));
        un(
            Op::Transpose(1, 2),
            un(Op::Select { dim: 2, index: i }, un(split, self.qkv_proj.apply(x))),
        )
    }

    /// Attention of every position over every other.
    pub open spec fn attended(self, x: Val) -> Val {
        let q = self.part(x, 0);
        let att = un(
            Op::MulScalar(Scalar::PowNegHalf(self.head_dim)),
            bin(Op::MatMul, q, un(Op::Transpose(2, 3), self.part(x, 1))),
        );
        let probs = un(
            Op::ToDType(q.dtype),
            un(Op::SoftmaxLast, un(Op::ToDType(DType::F32), att)),
        );
        self.out_proj.apply(
            un(
                Op::Reshape(d3(x.shape.d0, x.shape.d1, x.shape.d2)),
                un(Op::Transpose(1, 2), bin(Op::MatMul, probs, self.part(x, 2))),
            ),
        )
    }

    fn attn(&self, t: &mut Tape, x: Tensor) -> (r: Result<Tensor, Error>)
        requires
            old(t).has(x),
        ensures
            final(t).computed(*old(t)),
            x.shape.rank != 3 ==> r == Err::<Tensor, Error>(
                Error::UnexpectedRank { expected: 3, got: x.shape.rank },
            ),
            x.shape.rank == 3 ==> r is Ok && final(t).has(r->Ok_0) && r->Ok_0@ == self.attended(
                x@,
            ),
    {
        let (b, seq, hidden) = x.dims3()?;
        let qkv = self.qkv_proj.forward(t, x);
        let qkv = t.un(Op::Reshape(d5(b, seq, 3, self.n_heads, self.head_dim)), qkv);
        let q = t.un(Op::Select { dim: 2, index: 0 }, qkv);
        let q = t.un(Op::Transpose(1, 2), q);
        let k = t.un(Op::Select { dim: 2, index: 1 }, qkv);
        let k = t.un(Op::Transpose(1, 2), k);
        let v = t.un(Op::Select { dim: 2, index: 2 }, qkv);
        let v = t.un(Op::Transpose(1, 2), v);
        proof {
            lemma_contiguous(q@);
            lemma_contiguous(k@);
            lemma_contiguous(v@);
        }
        let q = t.un(Op::Contiguous, q);
        let k = t.un(Op::Contiguous, k);
        let v = t.un(Op::Contiguous, v);
        let kt = t.un(Op::Transpose(2, 3), k);
        let att = t.bin(Op::MatMul, q, kt);
        let att = t.un(Op::MulScalar(Scalar::PowNegHalf(self.head_dim)), att);
        let att = t.un(Op::ToDType(DType::F32), att);
        let att = t.un(Op::SoftmaxLast, att);
        let att = t.un(Op::ToDType(q.dtype), att);
        let out = t.bin(Op::MatMul, att, v);
        let out = t.un(Op::Transpose(1, 2), out);
        let out = t.un(Op::Reshape(d3(b, seq, hidden)), out);
        Ok(self.out_proj.forward(t, out))
    }

    pub open spec fn apply(self, x: Val) -> Result<Val, Error> {
        let y = self.ln1.apply(x);
        if y.shape.rank != 3 {
            Err(Error::UnexpectedRank { expected: 3, got: y.shape.rank })
        } else {
            let h = bin(Op::Add, x, self.attended(y));
            let m = self.fc2.apply(quick_gelued(self.fc1.apply(self.ln2.apply(h))));
            Ok(bin(Op::Add, h, m))
        }
    }

    pub fn forward(&self, t: &mut Tape, x: Tensor) -> (r: Result<Tensor, Error>)
        requires
            old(t).has(x),
        ensures
            final(t).computed(*old(t)),
            recorded(r, *final(t), self.apply(x@)),
    {
        let y = self.ln1.forward(t, x);
        let a = self.attn(t, y)?;
        let h = t.bin(Op::Add, x, a);
        let m = self.ln2.forward(t, h);
        let m = self.fc1.forward(t, m);
        let m = quick_gelu(t, m);
        let m = self.fc2.forward(t, m);
        Ok(t.bin(Op::Add, h, m))
    }
}

/// `r` is on the tape and is what `want` says.
pub open spec fn recorded(r: Result<Tensor, Error>, t: Tape, want: Result<Val, Error>) -> bool {
    match want {
        Err(e) => r == Err::<Tensor, Error>(e),
        Ok(v) => r is Ok && t.has(r->Ok_0) && r->Ok_0@ == v,
    }
}

/// A position table `[1, src * src + 1, dim]` for a square grid of another
/// size: the class row stays, the grid is resampled.
pub open spec fn positions(pos: Val, tgt_grid: usize) -> Result<Val, Error> {
    if pos.shape.rank != 3 {
        Err(Error::UnexpectedRank { expected: 3, got: pos.shape.rank })
    } else {
        let n = pos.shape.d1;
        let src = floor_sqrt((n - 1) as nat);
        if src * src + 1 != n || pos.shape.d0 != 1 {
            Err(Error::UnexpectedPositions)
        } else if src == tgt_grid {
            Ok(pos)
        } else {
            let f = un(Op::ToDType(DType::F32), pos);
            let class = un(Op::Narrow { dim: 1, start: 0, len: 1 }, f);
            let cells = un(Op::Narrow { dim: 1, start: 1, len: (n - 1) as usize }, f);
            let grid = un(Op::InterpolatePositions { grid: tgt_grid }, cells);
            Ok(un(Op::ToDType(pos.dtype), bin(Op::Cat(1), class, grid)))
        }
    }
}

pub fn interp_pos_with_cls(t: &mut Tape, pos: Tensor, tgt_grid: usize) -> (r: Result<Tensor, Error>)
    requires
        old(t).has(pos),
        pos.shape.rank == 3 ==> pos.shape.d1 > 0,
    ensures
        final(t).computed(*old(t)),
        recorded(r, *final(t), positions(pos@, tgt_grid)),
{
    let (one, n, _dim) = pos.dims3()?;
    let src: usize = isqrt(n - 1);
    if src * src + 1 != n || one != 1 {
        return Err(Error::UnexpectedPositions);
    }
    if src == tgt_grid {
        return Ok(pos);
    }
    let f = t.un(Op::ToDType(DType::F32), pos);
    let class = t.un(Op::Narrow { dim: 1, start: 0, len: 1 }, f);
    let cells = t.un(Op::Narrow { dim: 1, start: 1, len: n - 1 }, f);
    let grid = t.un(Op::InterpolatePositions { grid: tgt_grid }, cells);
    let all = t.bin(Op::Cat(1), class, grid);
    Ok(t.un(Op::ToDType(pos.dtype), all))
}

/// The second tower.
#[derive(Debug)]
pub struct ClipTower {
    /// `[hidden]`
    pub class_embedding: Weight,
    /// `[num_positions, hidden]`
    pub position_embedding: Weight,
    pub pre_ln: LayerNorm,
    pub blocks: Vec<NoTpBlock>,
}

impl ClipTower {
    pub open spec fn wf(self) -> bool {
        self.position_embedding.shape == d2(CLIP_POSITIONS, CLIP_WIDTH)
    }

    pub open spec fn asked(self, l: Loader, vb: Seq<char>) -> bool {
        let emb = pp(vb, "embeddings"@);
        &&& l.gives(
            self.class_embedding,
            plain(pp(emb, "class_embedding"@), d1(CLIP_WIDTH), l.reads()),
        )
        &&& l.gives(
            self.position_embedding,
            plain(
                pp(pp(emb, "position_embedding"@), "weight"@),
                d2(CLIP_POSITIONS, CLIP_WIDTH),
                l.reads(),
            ),
        )
        &&& self.pre_ln.asked(l, CLIP_WIDTH, pp(vb, "pre_layrnorm"@))
        &&& self.blocks.len() == 24
        &&& forall|i: int|
            0 <= i < self.blocks.len() ==> (#[trigger] self.blocks[i]).asked(
                l,
                CLIP_WIDTH,
                16,
                4096,
                pp(pp(pp(vb, "transformer"@), "layers"@), decimal(i as nat)),
            )
    }

    pub fn new(l: &mut Loader, vb: &VarPath) -> (r: ClipTower)
        ensures
            final(l).grew(*old(l)),
            final(l).added(*old(l), 292),
            r.asked(*final(l), vb@),
            r.wf(),
    {
        let emb = vb.pp("embeddings");
        let class_embedding = l.get(&emb, "class_embedding", d1(CLIP_WIDTH));
        let position_embedding = l.get(
            &emb.pp("position_embedding"),
            "weight",
            d2(CLIP_POSITIONS, CLIP_WIDTH),
        );
        let mut blocks: Vec<NoTpBlock> = Vec::new();
        let vb_l = vb.pp("transformer").pp("layers");
        let ghost rooted = *l;
        let mut i: usize = 0;
        while i < 24
            invariant
                i <= 24,
                l.grew(rooted),
                l.added(rooted, 12 * i),
                blocks.len() == i,
                forall|j: int|
                    0 <= j < i ==> (#[trigger] blocks[j]).asked(
                        *l,
                        CLIP_WIDTH,
                        16,
                        4096,
                        pp(vb_l@, decimal(j as nat)),
                    ),
            decreases 24 - i,
        {
            let block = NoTpBlock::new(l, CLIP_WIDTH, 16, 4096, &vb_l.pp_index(i));
            blocks.push(block);
            i += 1;
        }
        let pre_ln = LayerNorm::new(l, CLIP_WIDTH, &vb.pp("pre_layrnorm"));
        ClipTower { class_embedding, position_embedding, pre_ln, blocks }
    }

    /// The first `n` blocks.
    pub open spec fn through(self, x: Val, n: int) -> Result<Val, Error>
        decreases n,
    {
        if n <= 0 {
            Ok(x)
        } else {
            match self.through(x, n - 1) {
                Err(e) => Err(e),
                Ok(y) => self.blocks[n - 1].apply(y),
            }
        }
    }

    /// Patches with the class in front: `[b, gh * gw + 1, c]`.
    pub open spec fn tokens(self, f: Val) -> Val {
        let (b, c) = (f.shape.d0, f.shape.d1);
        let pe = un(
            Op::Transpose(1, 2),
            un(Op::Reshape(d3(b, c, sat_product(f.shape.d2, f.shape.d3))), f),
        );
        let cls = un(
            Op::ToDType(pe.dtype),
            un(
                Op::Expand(d3(b, 1, c)),
                un(Op::Reshape(d3(1, 1, c)), leaf(Op::Param(self.class_embedding))),
            ),
        );
        bin(Op::Cat(1), cls, pe)
    }

    /// Features `[b, c, gh, gw]` through the tower.
    pub open spec fn apply(self, f: Val) -> Result<Val, Error> {
        let c = f.shape.d1;
        let all = CLIP_POSITIONS * CLIP_WIDTH;
        if f.shape.rank != 4 {
            Err(Error::UnexpectedRank { expected: 4, got: f.shape.rank })
        } else if c == 0 || all % c as int != 0 {
            Err(Error::ShapeMismatch)
        } else {
            let x = self.tokens(f);
            let native = un(
                Op::Reshape(d3(1, (all / c as int) as usize, c)),
                leaf(Op::Param(self.position_embedding)),
            );
            match positions(native, f.shape.d2) {
                Err(e) => Err(e),
                Ok(pos) => self.through(
                    self.pre_ln.apply(bin(Op::BroadcastAdd, x, un(Op::ToDType(x.dtype), pos))),
                    self.blocks.len() as int,
                ),
            }
        }
    }

    pub fn forward(&self, t: &mut Tape, patch_embeds: Tensor) -> (r: Result<Tensor, Error>)
        requires
            self.wf(),
            old(t).has(patch_embeds),
        ensures
            final(t).computed(*old(t)),
            recorded(r, *final(t), self.apply(patch_embeds@)),
    {
        let (b, c, gh, gw) = patch_embeds.dims4()?;
        let all: usize = CLIP_POSITIONS * CLIP_WIDTH;
        if c == 0 || all % c != 0 {
            return Err(Error::ShapeMismatch);
        }
        let seq: usize = saturating_product(gh, gw);
        let pe = t.un(Op::Reshape(d3(b, c, seq)), patch_embeds);
        let pe = t.un(Op::Transpose(1, 2), pe);
        let cls = t.leaf(Op::Param(self.class_embedding));
        let cls = t.un(Op::Reshape(d3(1, 1, c)), cls);
        let cls = t.un(Op::Expand(d3(b, 1, c)), cls);
        let cls = t.un(Op::ToDType(pe.dtype), cls);
        let x = t.bin(Op::Cat(1), cls, pe);
        let native = t.leaf(Op::Param(self.position_embedding));
        let native = t.un(Op::Reshape(d3(1, all / c, c)), native);
        assert(native@.shape.d1 > 0) by {
            reveal(un);
            assert(all / c > 0) by (nonlinear_arith)
                requires
                    all % c == 0,
                    all > 0,
                    c > 0,
            ;
        }
        let pos = interp_pos_with_cls(t, native, gh)?;
        let pos = t.un(Op::ToDType(x.dtype), pos);
        let x = t.bin(Op::BroadcastAdd, x, pos);
        let first = self.pre_ln.forward(t, x);
        let mut cur = first;
        let ghost total = self.blocks.len() as int;
        let ghost want = self.through(first@, total);
        assert(want == self.apply(patch_embeds@));
        let mut i: usize = 0;
        while i < self.blocks.len()
            invariant
                i <= self.blocks.len(),
                t.computed(*old(t)),
                t.has(cur),
                total == self.blocks.len(),
                want == self.through(first@, total),
                want == self.apply(patch_embeds@),
                self.through(first@, i as int) == Ok::<Val, Error>(cur@),
            decreases self.blocks.len() - i,
        {
            proof {
                self.lemma_stops(first@, i + 1, total);
            }
            cur = self.blocks[i].forward(t, cur)?;
            i += 1;
        }
        Ok(cur)
    }

    /// The first block that refuses decides.
    proof fn lemma_stops(self, x: Val, i: int, n: int)
        requires
            i <= n,
        ensures
            self.through(x, i) is Err ==> self.through(x, n) == self.through(x, i),
        decreases n - i,
    {
        if i < n {
            self.lemma_stops(x, i, n - 1);
        }
    }
}

/// Sizes of the image encoder.
pub open spec fn sam_spec() -> SamConfig {
    SamConfig {
        img_size: 1024,
        patch_size: 16,
        in_chans: 3,
        embed_dim: 768,
        depth: 12,
        num_heads: 12,
        out_chans: 256,
        qkv_bias: true,
        use_rel_pos: true,
        use_abs_pos: true,
        window_size: 14,
        global_first: 2,
        global_every: 3,
    }
}

/// Sizes of the image encoder: its blocks 2, 5, 8 and 11 attend globally.
pub fn sam_config() -> (r: SamConfig)
    ensures
        r == sam_spec(),
{
    SamConfig {
        img_size: 1024,
        patch_size: 16,
        in_chans: 3,
        embed_dim: 768,
        depth: 12,
        num_heads: 12,
        out_chans: 256,
        qkv_bias: true,
        use_rel_pos: true,
        use_abs_pos: true,
        window_size: 14,
        global_first: 2,
        global_every: 3,
    }
}

/// Both towers and the projector.
#[derive(Debug)]
pub struct DeepEncoder {
    pub sam: Weight,
    pub net_2: Weight,
    pub net_3: Weight,
    pub clip: ClipTower,
    pub projector: Proj,
    /// `[n_embed]`
    pub image_newline: Weight,
    /// `[n_embed]`
    pub view_seperator: Weight,
}

/// Output of every stage on one image.
#[derive(Clone, Copy)]
pub struct Staged {
    pub sam: Tensor,
    pub clip: Tensor,
    pub embeds: Tensor,
}

impl DeepEncoder {
    pub open spec fn wf(self) -> bool {
        self.clip.wf()
    }

    pub open spec fn asked(self, l: Loader, vb: Seq<char>) -> bool {
        let m = pp(vb, "model"@);
        let s = pp(m, "sam_model"@);
        &&& l.gives(
            self.sam,
            changed(
                pp(s, "encoder"@),
                d1(0),
                Recipe::SamEncoder(sam_spec()),
                d1(0),
                l.reads(),
            ),
        )
        &&& l.gives(
            self.net_2,
            plain(pp(pp(s, "net_2"@), "weight"@), d4(512, 256, 3, 3), l.reads()),
        )
        &&& l.gives(
            self.net_3,
            plain(pp(pp(s, "net_3"@), "weight"@), d4(1024, 512, 3, 3), l.reads()),
        )
        &&& self.clip.asked(l, pp(m, "vision_model"@))
        &&& self.projector.asked(
            l,
            2048,
            EMBED_WIDTH,
            true,
            pp(pp(m, "projector"@), "layers"@),
            None,
        )
        &&& l.gives(
            self.image_newline,
            plain(pp(m, "image_newline"@), d1(EMBED_WIDTH), l.reads()),
        )
        &&& l.gives(
            self.view_seperator,
            plain(pp(m, "view_seperator"@), d1(EMBED_WIDTH), l.reads()),
        )
    }

    /// Asks for everything under the root of the checkpoint. The image encoder
    /// is asked for as a whole, under a name of its own below `sam_model`.
    pub fn new(l: &mut Loader, vb: &VarPath) -> (r: DeepEncoder)
        ensures
            final(l).grew(*old(l)),
            final(l).added(*old(l), 299),
            r.asked(*final(l), vb@),
            r.wf(),
    {
        let m = vb.pp("model");
        let s = m.pp("sam_model");
        let dtype = l.dtype();
        let sam = l.get_changed(
            &s,
            "encoder",
            d1(0),
            Recipe::SamEncoder(sam_config()),
            d1(0),
            dtype,
        );
        let net_2 = l.get(&s.pp("net_2"), "weight", d4(512, 256, 3, 3));
        let net_3 = l.get(&s.pp("net_3"), "weight", d4(1024, 512, 3, 3));
        let clip = ClipTower::new(l, &m.pp("vision_model"));
        let projector = Proj::dense(l, 2048, EMBED_WIDTH, true, &m.pp("projector").pp("layers"));
        let image_newline = l.get(&m, "image_newline", d1(EMBED_WIDTH));
        let view_seperator = l.get(&m, "view_seperator", d1(EMBED_WIDTH));
        DeepEncoder { sam, net_2, net_3, clip, projector, image_newline, view_seperator }
    }

    /// Features of the first tower, halved twice.
    pub open spec fn features(self, img: Val) -> Val {
        let f = un(Op::SamEncoder { weight: self.sam, patch: 16, channels: 256 }, img);
        un(
            Op::Conv2d { weight: self.net_3, padding: 1, stride: 2 },
            un(Op::Conv2d { weight: self.net_2, padding: 1, stride: 2 }, f),
        )
    }

    fn encode(&self, t: &mut Tape, img: Tensor) -> (r: Tensor)
        requires
            old(t).has(img),
        ensures
            final(t).computed(*old(t)),
            final(t).has(r),
            r@ == self.features(img@),
            r.shape.rank == 4,
    {
        let f = t.un(Op::SamEncoder { weight: self.sam, patch: 16, channels: 256 }, img);
        let f = t.un(Op::Conv2d { weight: self.net_2, padding: 1, stride: 2 }, f);
        let f = t.un(Op::Conv2d { weight: self.net_3, padding: 1, stride: 2 }, f);
        assert(f@.shape.rank == 4) by {
            reveal(un);
        }
        f
    }

    /// Runs only the second tower, on features from elsewhere.
    pub fn clip_only(&self, t: &mut Tape, f1: Tensor) -> (r: Result<Tensor, Error>)
        requires
            self.wf(),
            old(t).has(f1),
        ensures
            final(t).computed(*old(t)),
            recorded(r, *final(t), self.clip.apply(f1@)),
    {
        self.clip.forward(t, f1)
    }

    /// Both towers side by side, without the class: `[b, gh * gw, 2 * width]`.
    pub open spec fn merged(f1: Val, f2: Val) -> Val {
        let (b, c) = (f1.shape.d0, f1.shape.d1);
        let sam_seq = un(
            Op::Transpose(1, 2),
            un(Op::Reshape(d3(b, c, sat_product(f1.shape.d2, f1.shape.d3))), f1),
        );
        let rest = (if f2.shape.d1 == 0 { 0 } else { f2.shape.d1 - 1 }) as usize;
        bin(Op::Cat(2), un(Op::Narrow { dim: 1, start: 1, len: rest }, f2), sam_seq)
    }

    fn merge(t: &mut Tape, f1: Tensor, f2: Tensor) -> (r: Tensor)
        requires
            old(t).has(f1),
            old(t).has(f2),
        ensures
            final(t).computed(*old(t)),
            final(t).has(r),
            r@ == Self::merged(f1@, f2@),
    {
        let (b, c, gh, gw) = (f1.shape.d0, f1.shape.d1, f1.shape.d2, f1.shape.d3);
        let sam_seq = t.un(Op::Reshape(d3(b, c, saturating_product(gh, gw))), f1);
        let sam_seq = t.un(Op::Transpose(1, 2), sam_seq);
        let rest: usize = if f2.shape.d1 == 0 { 0 } else { f2.shape.d1 - 1 };
        let own = t.un(Op::Narrow { dim: 1, start: 1, len: rest }, f2);
        t.bin(Op::Cat(2), own, sam_seq)
    }

    /// `rows` times the learned row end, `[rows, 1, width]`.
    pub open spec fn newlines(self, rows: usize, width: usize, dtype: DType) -> Val {
        un(
            Op::Expand(d3(rows, 1, width)),
            un(
                Op::Reshape(d3(1, 1, width)),
                un(Op::ToDType(dtype), leaf(Op::Param(self.image_newline))),
            ),
        )
    }

    fn newline_column(&self, t: &mut Tape, rows: usize, width: usize, dtype: DType) -> (r: Tensor)
        ensures
            final(t).computed(*old(t)),
            final(t).has(r),
            r@ == self.newlines(rows, width, dtype),
    {
        let n = t.leaf(Op::Param(self.image_newline));
        let n = t.un(Op::ToDType(dtype), n);
        let n = t.un(Op::Reshape(d3(1, 1, width)), n);
        t.un(Op::Expand(d3(rows, 1, width)), n)
    }

    /// The view of `[1, c, gh, gw]` features: a row of the grid, a row end, and
    /// so on, and the separator.
    pub open spec fn assembled(self, f1: Val, f2: Val) -> Val {
        let (gh, gw) = (f1.shape.d2, f1.shape.d3);
        let feats = self.projector.apply(Self::merged(f1, f2));
        let n = feats.shape.d2;
        let grid = un(Op::Reshape(d3(gh, gw, n)), feats);
        let grid = bin(Op::Cat(1), grid, self.newlines(gh, n, grid.dtype));
        let flat = un(Op::Reshape(d2(sat_product(gh, sat_sum(gw, 1)), n)), grid);
        let sep = un(
            Op::Reshape(d2(1, n)),
            un(Op::ToDType(flat.dtype), leaf(Op::Param(self.view_seperator))),
        );
        bin(Op::Cat(0), flat, sep)
    }

    fn assemble(&self, t: &mut Tape, f1: Tensor, f2: Tensor) -> (r: Result<Tensor, Error>)
        requires
            old(t).has(f1),
            old(t).has(f2),
        ensures
            final(t).computed(*old(t)),
            f1.shape.rank != 4 ==> r == Err::<Tensor, Error>(
                Error::UnexpectedRank { expected: 4, got: f1.shape.rank },
            ),
            f1.shape.rank == 4 ==> r is Ok && final(t).has(r->Ok_0) && r->Ok_0@ == self.assembled(
                f1@,
                f2@,
            ),
    {
        let (_b, _c, gh, gw) = f1.dims4()?;
        let feats = Self::merge(t, f1, f2);
        let feats = self.projector.forward(t, feats);
        let n: usize = feats.shape.d2;
        let grid = t.un(Op::Reshape(d3(gh, gw, n)), feats);
        let newline = self.newline_column(t, gh, n, grid.dtype);
        let grid = t.bin(Op::Cat(1), grid, newline);
        let rows: usize = saturating_product(gh, saturating_sum(gw, 1));
        let flat = t.un(Op::Reshape(d2(rows, n)), grid);
        let sep = t.leaf(Op::Param(self.view_seperator));
        let sep = t.un(Op::ToDType(flat.dtype), sep);
        let sep = t.un(Op::Reshape(d2(1, n)), sep);
        Ok(t.bin(Op::Cat(0), flat, sep))
    }

    /// One image as embeddings of the decoder.
    pub open spec fn view_of(self, img: Val) -> Result<Val, Error> {
        let f1 = self.features(img);
        match self.clip.apply(f1) {
            Err(e) => Err(e),
            Ok(f2) => Ok(self.assembled(f1, f2)),
        }
    }

    /// Every stage of [`Self::forward`].
    pub fn forward_staged(&self, t: &mut Tape, img: Tensor) -> (r: Result<Staged, Error>)
        requires
            self.wf(),
            old(t).has(img),
        ensures
            final(t).computed(*old(t)),
            match self.clip.apply(self.features(img@)) {
                Err(e) => r == Err::<Staged, Error>(e),
                Ok(f2) => {
                    &&& r is Ok
                    &&& final(t).has(r->Ok_0.sam)
                    &&& final(t).has(r->Ok_0.clip)
                    &&& final(t).has(r->Ok_0.embeds)
                    &&& r->Ok_0.sam@ == self.features(img@)
                    &&& r->Ok_0.clip@ == f2
                    &&& r->Ok_0.embeds@ == self.assembled(self.features(img@), f2)
                },
            },
    {
        let f1 = self.encode(t, img);
        let f2 = self.clip.forward(t, f1)?;
        let embeds = self.assemble(t, f1, f2)?;
        Ok(Staged { sam: f1, clip: f2, embeds })
    }

    /// A single view as embeddings of the decoder, `[gh * (gw + 1) + 1,
    /// n_embed]`.
    pub fn forward(&self, t: &mut Tape, img: Tensor) -> (r: Result<Tensor, Error>)
        requires
            self.wf(),
            old(t).has(img),
        ensures
            final(t).computed(*old(t)),
            recorded(r, *final(t), self.view_of(img@)),
    {
        let f1 = self.encode(t, img);
        let f2 = self.clip.forward(t, f1)?;
        self.assemble(t, f1, f2)
    }

    /// Crops from number `i` on that go through the towers together.
    pub open spec fn crops_from(n: usize, i: int) -> usize {
        (if n - i < CROPS_AT_ONCE { n - i } else { CROPS_AT_ONCE as int }) as usize
    }

    /// Projected features of a batch of crops.
    pub open spec fn batch(self, crops: Val, i: int) -> Result<Val, Error> {
        let part = un(
            Op::Narrow { dim: 0, start: i as usize, len: Self::crops_from(crops.shape.d0, i) },
            crops,
        );
        let f1 = self.features(part);
        match self.clip.apply(f1) {
            Err(e) => Err(e),
            Ok(f2) => Ok(self.projector.apply(Self::merged(f1, f2))),
        }
    }

    /// The first `k` batches of crops, one after the other.
    pub open spec fn locals(self, crops: Val, k: int) -> Result<Val, Error>
        decreases k,
    {
        if k <= 1 {
            self.batch(crops, 0)
        } else {
            match self.locals(crops, k - 1) {
                Err(e) => Err(e),
                Ok(a) => match self.batch(crops, (k - 1) * CROPS_AT_ONCE) {
                    Err(e) => Err(e),
                    Ok(b) => Ok(bin(Op::Cat(0), a, b)),
                },
            }
        }
    }

    /// All crops, one after the other.
    pub open spec fn all_locals(self, crops: Val) -> Result<Val, Error> {
        if crops.shape.d0 == 0 {
            Err(Error::NothingToJoin)
        } else {
            self.locals(crops, Self::batches(crops.shape.d0))
        }
    }

    /// Batches that `n` crops make.
    pub open spec fn batches(n: usize) -> int {
        (n + CROPS_AT_ONCE - 1) / CROPS_AT_ONCE as int
    }

    /// Side of the grid that a crop's features form.
    pub open spec fn side(local: Val) -> usize {
        floor_sqrt(local.shape.d1 as nat) as usize
    }

    /// Grids of crops laid out beside each other, a row end after each row.
    pub open spec fn mosaic(self, local: Val, wc: usize, hc: usize, d: usize) -> Val {
        let g = Self::side(local);
        let (rows, cols) = (sat_product(hc, g), sat_product(wc, g));
        let m = un(Op::Reshape(d5(hc, wc, g, g, d)), local);
        let m = un(Op::Permute5 { p0: 0, p1: 2, p2: 1, p3: 3, p4: 4 }, m);
        let m = un(Op::Reshape(d3(rows, cols, d)), m);
        let m = bin(Op::Cat(1), m, self.newlines(rows, d, m.dtype));
        un(Op::Reshape(d2(sat_product(rows, sat_sum(cols, 1)), d)), m)
    }

    /// A view and its crops: the mosaic, the view, the separator.
    pub open spec fn crops_of(self, img: Val, crops: Val, wc: usize, hc: usize) -> Result<
        Val,
        Error,
    > {
        match self.view_of(img) {
            Err(e) => Err(e),
            Ok(view) => match self.all_locals(crops) {
                Err(e) => Err(e),
                Ok(local) => {
                    let (len, d) = (view.shape.d0, view.shape.d1);
                    let body = un(
                        Op::Narrow { dim: 0, start: 0, len: (len - 1) as usize },
                        view,
                    );
                    let sep = un(
                        Op::Narrow { dim: 0, start: (len - 1) as usize, len: 1 },
                        view,
                    );
                    Ok(
                        bin(
                            Op::Cat(0),
                            bin(Op::Cat(0), self.mosaic(local, wc, hc, d), body),
                            sep,
                        ),
                    )
                },
            },
        }
    }

    fn run_batch(&self, t: &mut Tape, crops: Tensor, i: usize) -> (r: Result<Tensor, Error>)
        requires
            self.wf(),
            old(t).has(crops),
            i < crops.shape.d0,
        ensures
            final(t).computed(*old(t)),
            recorded(r, *final(t), self.batch(crops@, i as int)),
    {
        let n: usize = crops.shape.d0;
        let m: usize = if n - i < CROPS_AT_ONCE { n - i } else { CROPS_AT_ONCE };
        let part = t.un(Op::Narrow { dim: 0, start: i, len: m }, crops);
        let f1 = self.encode(t, part);
        let f2 = self.clip.forward(t, f1)?;
        let merged = Self::merge(t, f1, f2);
        proof {
            lemma_contiguous(merged@);
        }
        let merged = t.un(Op::Contiguous, merged);
        Ok(self.projector.forward(t, merged))
    }

    fn run_crops(&self, t: &mut Tape, crops: Tensor) -> (r: Result<Tensor, Error>)
        requires
            self.wf(),
            old(t).has(crops),
        ensures
            final(t).computed(*old(t)),
            recorded(r, *final(t), self.all_locals(crops@)),
    {
        let n: usize = crops.shape.d0;
        if n == 0 {
            return Err(Error::NothingToJoin);
        }
        let ghost all = Self::batches(n);
        let ghost want = self.locals(crops@, all);
        let ghost mut k: int = 1;
        proof {
            self.lemma_locals_stop(crops@, 1, all);
        }
        let mut local = self.run_batch(t, crops, 0)?;
        let mut i: usize = if n < CROPS_AT_ONCE { n } else { CROPS_AT_ONCE };
        while i < n
            invariant
                self.wf(),
                n == crops.shape.d0,
                t.computed(*old(t)),
                t.has(crops),
                t.has(local),
                all == Self::batches(n),
                want == self.locals(crops@, all),
                want == self.all_locals(crops@),
                1 <= k <= all,
                i < n ==> i == k * CROPS_AT_ONCE,
                i >= n ==> i == n && k == all,
                i <= n,
                self.locals(crops@, k) == Ok::<Val, Error>(local@),
            decreases n - i,
        {
            proof {
                self.lemma_locals_stop(crops@, k + 1, all);
            }
            let feats = self.run_batch(t, crops, i)?;
            local = t.bin(Op::Cat(0), local, feats);
            i = if n - i < CROPS_AT_ONCE { n } else { i + CROPS_AT_ONCE };
            proof {
                k = k + 1;
            }
        }
        Ok(local)
    }

    /// The first batch that fails decides.
    proof fn lemma_locals_stop(self, crops: Val, k: int, n: int)
        requires
            1 <= k <= n,
        ensures
            self.locals(crops, k) is Err ==> self.locals(crops, n) == self.locals(crops, k),
        decreases n - k,
    {
        if k < n {
            self.lemma_locals_stop(crops, k, n - 1);
        }
    }

    /// A large image: its global view and `wc * hc` crops, row by row.
    pub fn forward_crops(
        &self,
        t: &mut Tape,
        global_img: Tensor,
        crops: Tensor,
        wc: usize,
        hc: usize,
    ) -> (r: Result<Tensor, Error>)
        requires
            self.wf(),
            old(t).has(global_img),
            old(t).has(crops),
        ensures
            final(t).computed(*old(t)),
            recorded(r, *final(t), self.crops_of(global_img@, crops@, wc, hc)),
    {
        let global = self.forward(t, global_img)?;
        assert(global@.shape.rank == 2 && global@.shape.d0 > 0) by {
            reveal(un);
            reveal(bin);
        }
        let (g_len, d) = global.dims2()?;
        let body = t.un(Op::Narrow { dim: 0, start: 0, len: g_len - 1 }, global);
        let sep = t.un(Op::Narrow { dim: 0, start: g_len - 1, len: 1 }, global);
        let local = self.run_crops(t, crops)?;
        let g: usize = isqrt(local.shape.d1);
        let (rows, cols) = (saturating_product(hc, g), saturating_product(wc, g));
        let m = t.un(Op::Reshape(d5(hc, wc, g, g, d)), local);
        let m = t.un(Op::Permute5 { p0: 0, p1: 2, p2: 1, p3: 3, p4: 4 }, m);
        let m = t.un(Op::Reshape(d3(rows, cols, d)), m);
        let newline = self.newline_column(t, rows, d, m.dtype);
        let m = t.bin(Op::Cat(1), m, newline);
        let flat = t.un(
            Op::Reshape(d2(saturating_product(rows, saturating_sum(cols, 1)), d)),
            m,
        );
        let out = t.bin(Op::Cat(0), flat, body);
        Ok(t.bin(Op::Cat(0), out, sep))
    }
}

/// Every crop goes through the towers in exactly one batch: the batches follow
/// each other without gap or overlap up to the last crop.
pub proof fn law_batches_cover(n: usize, k: int)
    requires
        n > 0,
        0 <= k < DeepEncoder::batches(n),
    ensures
        0 < DeepEncoder::crops_from(n, k * CROPS_AT_ONCE) <= CROPS_AT_ONCE,
        k + 1 < DeepEncoder::batches(n) ==> DeepEncoder::crops_from(n, k * CROPS_AT_ONCE)
            == CROPS_AT_ONCE,
        k + 1 == DeepEncoder::batches(n) ==> k * CROPS_AT_ONCE + DeepEncoder::crops_from(
            n,
            k * CROPS_AT_ONCE,
        ) == n,
{
}

/// A view of a grid of `gh` rows of `gw` cells is `gh * (gw + 1) + 1`
/// embeddings: one for each cell, one at the end of each row, one at the end.
pub proof fn law_view_shape(e: DeepEncoder, f1: Val, f2: Val)
    requires
        f1.shape.d2 * (f1.shape.d3 + 1) < usize::MAX,
        f1.shape.d3 < usize::MAX,
        f1.shape.rank == 4,
        f2.shape.rank == 3,
        e.projector.weight_spec().shape.d0 == EMBED_WIDTH,
    ensures
        e.assembled(f1, f2).shape == d2(
            (f1.shape.d2 * (f1.shape.d3 + 1) + 1) as usize,
            EMBED_WIDTH,
        ),
{
    reveal(un);
    reveal(bin);
    let m = DeepEncoder::merged(f1, f2);
    assert(m.shape.rank == 3);
    assert(e.projector.apply(m).shape.d2 == EMBED_WIDTH);
}

/// Cell `(row, col)` of the mosaic of a `wc` wide arrangement of crops is a cell
/// of one crop: which crop, and which of its `g * g` cells.
pub open spec fn cell_of(row: int, col: int, g: int, wc: int) -> (int, int) {
    ((row / g) * wc + col / g, (row % g) * g + col % g)
}

/// Splitting crops and cells into rows and columns, exchanging the middle axes
/// and joining again moves element `k` of a cell of a crop to the place in the
/// mosaic where that cell lies: crops and, within them, cells go from left to
/// right and from top to bottom.
pub proof fn law_mosaic_places(
    hr: int,
    wi: int,
    gy: int,
    gx: int,
    k: int,
    hc: int,
    wc: int,
    g: int,
    d: int,
)
    requires
        0 <= hr < hc,
        0 <= wi < wc,
        0 <= gy < g,
        0 <= gx < g,
        0 <= k < d,
    ensures
        ({
            let (row, col) = (hr * g + gy, wi * g + gx);
            let (crop, cell) = cell_of(row, col, g, wc);
            // where the element stood: crop after crop, cell after cell
            &&& (((hr * wc + wi) * g + gy) * g + gx) * d + k == (crop * (g * g) + cell) * d + k
            // where it stands after the exchange: row after row of the mosaic
            &&& (((hr * g + gy) * wc + wi) * g + gx) * d + k == (row * (wc * g) + col) * d + k
            &&& 0 <= row < hc * g
            &&& 0 <= col < wc * g
            &&& 0 <= crop < hc * wc
            &&& 0 <= cell < g * g
        }),
{
    let (row, col) = (hr * g + gy, wi * g + gx);
    vstd::arithmetic::div_mod::lemma_fundamental_div_mod_converse(row, g, hr, gy);
    vstd::arithmetic::div_mod::lemma_fundamental_div_mod_converse(col, g, wi, gx);
    assert(((hr * wc + wi) * g + gy) * g + gx == (hr * wc + wi) * (g * g) + (gy * g + gx))
        by (nonlinear_arith);
    assert(((hr * g + gy) * wc + wi) * g + gx == (hr * g + gy) * (wc * g) + (wi * g + gx))
        by (nonlinear_arith);
    assert(0 <= hr * g + gy < hc * g) by (nonlinear_arith)
        requires
            0 <= hr < hc,
            0 <= gy < g,
    ;
    assert(0 <= wi * g + gx < wc * g) by (nonlinear_arith)
        requires
            0 <= wi < wc,
            0 <= gx < g,
    ;
    assert(0 <= hr * wc + wi < hc * wc) by (nonlinear_arith)
        requires
            0 <= hr < hc,
            0 <= wi < wc,
    ;
    assert(0 <= gy * g + gx < g * g) by (nonlinear_arith)
        requires
            0 <= gy < g,
            0 <= gx < g,
    ;
}

/// A view with its crops is the mosaic and its row ends, then the view: the
/// separator of the view stays last.
pub proof fn law_crops_shape(
    e: DeepEncoder,
    img: Val,
    crops: Val,
    wc: usize,
    hc: usize,
    local: Val,
)
    requires
        e.view_of(img) is Ok,
        e.all_locals(crops) == Ok::<Val, Error>(local),
        DeepEncoder::side(local) * hc <= usize::MAX,
        DeepEncoder::side(local) * wc < usize::MAX,
        hc * DeepEncoder::side(local) * (wc * DeepEncoder::side(local) + 1)
            + e.view_of(img)->Ok_0.shape.d0 <= usize::MAX,
    ensures
        ({
            let g = DeepEncoder::side(local);
            let r = e.crops_of(img, crops, wc, hc);
            &&& r is Ok
            &&& r->Ok_0.shape.d0 == hc * g * (wc * g + 1) + e.view_of(img)->Ok_0.shape.d0
            &&& r->Ok_0.shape.d1 == e.view_of(img)->Ok_0.shape.d1
        }),
{
    reveal(un);
    reveal(bin);
    let g = DeepEncoder::side(local);
    assert(g * hc == hc * g) by (nonlinear_arith);
    assert(g * wc == wc * g) by (nonlinear_arith);
    assert(hc * g * (wc * g + 1) >= 0) by (nonlinear_arith)
        requires
            hc * g >= 0,
            wc * g >= 0,
    ;
    assert(e.view_of(img)->Ok_0.shape.d0 > 0);
}

} // verus!
