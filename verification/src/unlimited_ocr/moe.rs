use vstd::prelude::*;

use crate::dtype::DType;
use crate::error::Error;
use crate::fused::lemma_contiguous;
use crate::loader::{changed, decimal, pp, Loader, Proj, Recipe, VarPath};
use crate::routing::{
    copy_pairs, copy_plan, group_by_expert, hits, is_plan, law_plan_within, order_key, plan_within,
    route, rows_view, token_ids, tokens_of,
};
use crate::shape::{d2, d3, sat_product, saturating_product};
use crate::tape::{
    bin, gates_val, ids_val, leaf, pick_val, plan_view, tri, un, GateRule, Op, RoutingPlan, Tape,
    Tensor, Val, Weight,
};
use crate::unlimited_ocr::config::UnlimitedOcrTextConfig;

verus! {

/// Gated feed-forward block.
#[derive(Clone, Copy, PartialEq, Eq, Structural, Debug)]
pub struct Mlp {
    pub gate_proj: Proj,
    pub up_proj: Proj,
    pub down_proj: Proj,
}

impl Mlp {
    pub open spec fn apply(self, x: Val) -> Val {
        self.down_proj.apply(
            bin(Op::Mul, un(Op::Silu, self.gate_proj.apply(x)), self.up_proj.apply(x)),
        )
    }

    pub open spec fn asked(self, l: Loader, h: usize, inter: usize, vb: Seq<char>) -> bool {
        &&& self.gate_proj.asked(l, h, inter, false, pp(vb, "gate_proj"@), None)
        &&& self.up_proj.asked(l, h, inter, false, pp(vb, "up_proj"@), None)
        &&& self.down_proj.asked(l, inter, h, false, pp(vb, "down_proj"@), None)
    }

    pub fn new(l: &mut Loader, h: usize, inter: usize, vb: &VarPath) -> (r: Mlp)
        ensures
            final(l).grew(*old(l)),
            final(l).added(*old(l), 3),
            r.asked(*final(l), h, inter, vb@),
    {
        let gate_proj = Proj::dense(l, h, inter, false, &vb.pp("gate_proj"));
        let up_proj = Proj::dense(l, h, inter, false, &vb.pp("up_proj"));
        let down_proj = Proj::dense(l, inter, h, false, &vb.pp("down_proj"));
        Mlp { gate_proj, up_proj, down_proj }
    }

    pub fn forward(&self, t: &mut Tape, x: Tensor) -> (r: Tensor)
        requires
            old(t).has(x),
        ensures
            final(t).computed(*old(t)),
            final(t).has(r),
            r@ == self.apply(x@),
    {
        let g = self.gate_proj.forward(t, x);
        let g = t.un(Op::Silu, g);
        let u = self.up_proj.forward(t, x);
        let y = t.bin(Op::Mul, g, u);
        self.down_proj.forward(t, y)
    }
}

/// A score that compares with no other, given by its bits.
pub open spec fn is_nan(bits: u32) -> bool {
    bits as int % 0x8000_0000 > 0x7f80_0000
}

/// The scores of a row can be put in order.
pub open spec fn ordered(row: Seq<u32>) -> bool {
    row.len() <= 1 || forall|i: int| 0 <= i < row.len() ==> !is_nan(#[trigger] row[i])
}

pub open spec fn all_ordered(rows: Seq<Seq<u32>>) -> bool {
    forall|i: int| 0 <= i < rows.len() ==> ordered(#[trigger] rows[i])
}

/// Whether the scores of every row can be put in order.
pub fn can_order(rows: &Vec<Vec<u32>>) -> (r: bool)
    ensures
        r == all_ordered(rows_view(*rows)),
{
    let ghost view = rows_view(*rows);
    let mut i: usize = 0;
    while i < rows.len()
        invariant
            i <= rows.len(),
            view == rows_view(*rows),
            forall|j: int| 0 <= j < i ==> ordered(#[trigger] view[j]),
        decreases rows.len() - i,
    {
        let row = &rows[i];
        assert(view[i as int] == row@);
        let mut j: usize = 0;
        while row.len() > 1 && j < row.len()
            invariant
                j <= row.len(),
                i < rows.len(),
                view == rows_view(*rows),
                view[i as int] == row@,
                forall|k: int| 0 <= k < j ==> !is_nan(#[trigger] row[k]),
            decreases row.len() - j,
        {
            if row[j] % 0x8000_0000 > 0x7f80_0000 {
                assert(is_nan(view[i as int][j as int]));
                return false;
            }
            j += 1;
        }
        i += 1;
    }
    true
}

/// A row with both zeros given by the same bits, so that they are equal.
pub open spec fn folded(row: Seq<u32>) -> Seq<u32> {
    Seq::new(row.len(), |i: int| if row[i] == 0x8000_0000 { 0u32 } else { row[i] })
}

pub open spec fn folded_rows(rows: Seq<Seq<u32>>) -> Seq<Seq<u32>> {
    Seq::new(rows.len(), |i: int| folded(rows[i]))
}

/// The sign and magnitude of a score that is a number: its place among all
/// such scores, zeros of either sign in one place.
pub open spec fn magnitude(bits: u32) -> int {
    if bits < 0x8000_0000 {
        bits as int
    } else {
        0x8000_0000 - bits
    }
}

/// Folding orders scores as numbers are ordered: zeros of either sign are
/// equal, and otherwise the larger comes first.
pub proof fn law_folding_compares_numbers(row: Seq<u32>, i: int, j: int)
    requires
        0 <= i < row.len(),
        0 <= j < row.len(),
    ensures
        order_key(folded(row)[i]) < order_key(folded(row)[j]) <==> magnitude(row[i]) < magnitude(
            row[j],
        ),
        order_key(folded(row)[i]) == order_key(folded(row)[j]) <==> magnitude(row[i]) == magnitude(
            row[j],
        ),
{
}

fn fold_rows(rows: &Vec<Vec<u32>>) -> (r: Vec<Vec<u32>>)
    ensures
        rows_view(r) == folded_rows(rows_view(*rows)),
{
    let mut r: Vec<Vec<u32>> = Vec::new();
    let mut i: usize = 0;
    while i < rows.len()
        invariant
            i <= rows.len(),
            r.len() == i,
            forall|j: int| 0 <= j < i ==> #[trigger] r[j]@ == folded(rows[j]@),
        decreases rows.len() - i,
    {
        let mut row: Vec<u32> = Vec::new();
        let mut j: usize = 0;
        while j < rows[i].len()
            invariant
                i < rows.len(),
                j <= rows[i as int].len(),
                row@ == folded(rows[i as int]@).take(j as int),
            decreases rows[i as int].len() - j,
        {
            let bits: u32 = rows[i][j];
            row.push(if bits == 0x8000_0000 { 0 } else { bits });
            assert(row@ =~= folded(rows[i as int]@).take(j + 1));
            j += 1;
        }
        assert(row@ =~= folded(rows[i as int]@));
        r.push(row);
        i += 1;
    }
    assert(rows_view(r) =~= folded_rows(rows_view(*rows)));
    r
}

/// Softmax gate, greedy choice of the best experts without renormalization, and
/// a block that every token passes.
#[derive(Debug)]
pub struct MoE {
    /// `[n_experts, hidden]` in single precision.
    pub gate_w: Weight,
    pub experts: Vec<Mlp>,
    pub shared: Mlp,
    pub top_k: usize,
}

impl MoE {
    pub open spec fn asked(self, l: Loader, cfg: UnlimitedOcrTextConfig, vb: Seq<char>) -> bool {
        let h = cfg.hidden_size;
        let shape = d2(cfg.n_routed_experts, h);
        &&& self.experts.len() == cfg.n_routed_experts
        &&& forall|i: int|
            0 <= i < self.experts.len() ==> (#[trigger] self.experts[i]).asked(
                l,
                h,
                cfg.moe_intermediate_size,
                pp(pp(vb, "experts"@), decimal(i as nat)),
            )
        &&& l.gives(
            self.gate_w,
            changed(pp(pp(vb, "gate"@), "weight"@), shape, Recipe::Converted, shape, DType::F32),
        )
        &&& self.shared.asked(
            l,
            h,
            sat_product(cfg.moe_intermediate_size, cfg.n_shared_experts),
            pp(vb, "shared_experts"@),
        )
        &&& self.top_k == cfg.num_experts_per_tok
    }

    pub fn new(l: &mut Loader, cfg: &UnlimitedOcrTextConfig, vb: &VarPath) -> (r: MoE)
        ensures
            final(l).grew(*old(l)),
            final(l).added(*old(l), 3 * cfg.n_routed_experts + 4),
            r.asked(*final(l), *cfg, vb@),
    {
        let h: usize = cfg.hidden_size;
        let mut experts: Vec<Mlp> = Vec::new();
        let vb_e = vb.pp("experts");
        let mut i: usize = 0;
        while i < cfg.n_routed_experts
            invariant
                i <= cfg.n_routed_experts,
                h == cfg.hidden_size,
                l.grew(*old(l)),
                l.added(*old(l), 3 * i),
                experts.len() == i,
                forall|j: int|
                    0 <= j < i ==> (#[trigger] experts[j]).asked(
                        *l,
                        h,
                        cfg.moe_intermediate_size,
                        pp(vb_e@, decimal(j as nat)),
                    ),
            decreases cfg.n_routed_experts - i,
        {
            let e = Mlp::new(l, h, cfg.moe_intermediate_size, &vb_e.pp_index(i));
            experts.push(e);
            i += 1;
        }
        let shape = d2(cfg.n_routed_experts, h);
        let gate_w = l.get_changed(
            &vb.pp("gate"),
            "weight",
            shape,
            Recipe::Converted,
            shape,
            DType::F32,
        );
        let wide: usize = saturating_product(cfg.moe_intermediate_size, cfg.n_shared_experts);
        let shared = Mlp::new(l, h, wide, &vb.pp("shared_experts"));
        MoE { gate_w, experts, shared, top_k: cfg.num_experts_per_tok }
    }

    /// `x` as one row per token.
    pub open spec fn flat(x: Val) -> Val {
        un(Op::Reshape(d2(sat_product(x.shape.d0, x.shape.d1), x.shape.d2)), x)
    }

    /// Scores of the experts, computed in single precision.
    pub open spec fn scores(self, x: Val) -> Val {
        un(
            Op::SoftmaxLast,
            bin(
                Op::MatMul,
                un(Op::ToDType(DType::F32), Self::flat(x)),
                un(Op::Transpose(0, 1), leaf(Op::Param(self.gate_w))),
            ),
        )
    }

    /// Records the scores that the host routes by.
    pub fn score(&self, t: &mut Tape, x: Tensor) -> (r: Result<Tensor, Error>)
        requires
            old(t).has(x),
        ensures
            final(t).computed(*old(t)),
            x.shape.rank != 3 ==> r == Err::<Tensor, Error>(
                Error::UnexpectedRank { expected: 3, got: x.shape.rank },
            ),
            x.shape.rank == 3 ==> r is Ok && final(t).has(r->Ok_0) && r->Ok_0@ == self.scores(x@),
    {
        let (b, seq, h) = x.dims3()?;
        let xf = t.un(Op::Reshape(d2(saturating_product(b, seq), h)), x);
        let xf = t.un(Op::ToDType(DType::F32), xf);
        let g = t.leaf(Op::Param(self.gate_w));
        let g = t.un(Op::Transpose(0, 1), g);
        proof {
            lemma_contiguous(g@);
        }
        let g = t.un(Op::Contiguous, g);
        let logits = t.bin(Op::MatMul, xf, g);
        Ok(t.un(Op::SoftmaxLast, logits))
    }

    /// Every row of scores has one entry per expert.
    pub open spec fn complete(self, rows: Seq<Seq<u32>>) -> bool {
        forall|i: int| 0 <= i < rows.len() ==> #[trigger] rows[i].len() == self.experts.len()
    }

    /// Chooses the experts with the highest scores; of equal scores the one with
    /// the lowest number.
    pub fn choose_experts(&self, rows: &Vec<Vec<u32>>) -> (r: Result<RoutingPlan, Error>)
        requires
            all_ordered(rows_view(*rows)),
        ensures
            self.complete(rows_view(*rows)) ==> r is Ok && is_plan(
                folded_rows(rows_view(*rows)),
                self.top_k as int,
                plan_view(r->Ok_0),
            ) && plan_within(plan_view(r->Ok_0), self.experts.len() as int),
            !self.complete(rows_view(*rows)) ==> r == Err::<RoutingPlan, Error>(
                Error::ShapeMismatch,
            ),
    {
        let ghost view = rows_view(*rows);
        let mut i: usize = 0;
        while i < rows.len()
            invariant
                i <= rows.len(),
                view == rows_view(*rows),
                forall|j: int| 0 <= j < i ==> #[trigger] view[j].len() == self.experts.len(),
            decreases rows.len() - i,
        {
            if rows[i].len() != self.experts.len() {
                assert(view[i as int].len() != self.experts.len());
                return Err(Error::ShapeMismatch);
            }
            i += 1;
        }
        let plan = route(&fold_rows(rows), self.top_k);
        proof {
            let rows = folded_rows(view);
            assert forall|i: int| 0 <= i < rows.len() implies #[trigger] rows[i].len()
                == self.experts.len() by {
                assert(view[i].len() == self.experts.len());
            }
            law_plan_within(rows, self.top_k as int, plan_view(plan), self.experts.len() as int);
        }
        Ok(plan)
    }

    /// The first `e` experts applied and added up.
    pub open spec fn routed(self, x: Val, gates: Val, plan: Seq<Seq<usize>>, e: int) -> Val
        decreases e,
    {
        if e <= 0 {
            leaf(Op::Zeros { shape: x.shape, dtype: x.dtype })
        } else {
            let before = self.routed(x, gates, plan, e - 1);
            let group = hits(plan, (e - 1) as usize, plan.len() as int);
            if group.len() == 0 {
                before
            } else {
                let ids = ids_val(token_ids(group));
                let y = self.experts[e - 1].apply(bin(Op::IndexSelect(0), x, ids));
                let w = un(Op::ToDType(x.dtype), pick_val(gates, group));
                tri(Op::IndexAdd(0), before, ids, bin(Op::BroadcastMul, y, w))
            }
        }
    }

    /// The block with the experts in `plan`.
    pub open spec fn out(self, x: Val, scores: Val, plan: Seq<Seq<usize>>) -> Val {
        let xf = Self::flat(x);
        let gates = gates_val(GateRule::Raw, scores, plan);
        let routed = self.routed(xf, gates, plan, self.experts.len() as int);
        un(
            Op::Reshape(d3(x.shape.d0, x.shape.d1, x.shape.d2)),
            bin(Op::Add, routed, self.shared.apply(xf)),
        )
    }

    /// Runs each chosen expert once on its tokens, in the order of the experts,
    /// adds up the weighted outputs, and adds the shared block.
    pub fn forward(&self, t: &mut Tape, x: Tensor, scores: Tensor, plan: RoutingPlan) -> (r: Result<
        Tensor,
        Error,
    >)
        requires
            old(t).has(x),
            old(t).has(scores),
            plan_within(plan_view(plan), self.experts.len() as int),
        ensures
            final(t).computed(*old(t)),
            x.shape.rank != 3 ==> r == Err::<Tensor, Error>(
                Error::UnexpectedRank { expected: 3, got: x.shape.rank },
            ),
            x.shape.rank == 3 ==> r is Ok && final(t).has(r->Ok_0) && r->Ok_0@ == self.out(
                x@,
                scores@,
                plan_view(plan),
            ),
    {
        let (b, seq, h) = x.dims3()?;
        let xf = t.un(Op::Reshape(d2(saturating_product(b, seq), h)), x);
        let gates = t.gates(GateRule::Raw, scores, copy_plan(&plan));
        let ghost p = plan_view(plan);
        let n: usize = self.experts.len();
        let groups = group_by_expert(&plan, n);
        let mut out = t.leaf(Op::Zeros { shape: xf.shape, dtype: xf.dtype });
        let mut e: usize = 0;
        while e < n
            invariant
                e <= n,
                n == self.experts.len(),
                p == plan_view(plan),
                p.len() == plan.len(),
                groups.len() == n,
                forall|i: int|
                    0 <= i < n ==> #[trigger] groups[i]@ == hits(p, i as usize, p.len() as int),
                t.computed(*old(t)),
                t.has(xf),
                t.has(gates),
                t.has(out),
                out@ == self.routed(xf@, gates@, p, e as int),
            decreases n - e,
        {
            let group = &groups[e];
            if group.len() > 0 {
                let ids = t.ids(tokens_of(group));
                let sel = t.bin(Op::IndexSelect(0), xf, ids);
                let y = self.experts[e].forward(t, sel);
                let w = t.pick(gates, copy_pairs(group));
                let w = t.un(Op::ToDType(xf.dtype), w);
                let y = t.bin(Op::BroadcastMul, y, w);
                out = t.tri(Op::IndexAdd(0), out, ids, y);
            }
            e += 1;
        }
        let shared = self.shared.forward(t, xf);
        let out = t.bin(Op::Add, out, shared);
        Ok(t.un(Op::Reshape(d3(b, seq, h)), out))
    }
}

} // verus!
